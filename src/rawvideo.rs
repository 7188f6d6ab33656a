//! The raw-video codec: YUV4MPEG2 picture bytes to planes and back.

use crate::frame::{Frame, PixelFormat, Plane, VideoFrame};
use crate::media::{rescale, rescaled, MediaError, Timebase};
use crate::packet::Packet;
use crate::wav::concat_all;
use crate::y4m::{picture_bytes, picture_size, plane_sizes, Colorspace, Y4mFormat};
use vstd::prelude::*;

verus! {

/// The pixel format that a header's colorspace names (4:2:0 by default).
pub open spec fn pixel_format_of(f: Y4mFormat) -> PixelFormat {
    match f.colorspace {
        Some(Colorspace::C422) => PixelFormat::I422,
        Some(Colorspace::C444) => PixelFormat::I444,
        Some(Colorspace::Mono) => PixelFormat::Mono,
        _ => PixelFormat::I420,
    }
}

/// The row width of each plane, luma first.
pub open spec fn plane_widths(f: Y4mFormat) -> Seq<nat> {
    let w = f.width as nat;
    match f.colorspace {
        Some(Colorspace::C444) => seq![w, w, w],
        Some(Colorspace::Mono) => seq![w],
        _ => seq![w, w / 2, w / 2],
    }
}

/// Picture bytes cut into planes, in the canonical order Y, Cb, Cr.
pub open spec fn split_planes(data: Seq<u8>, f: Y4mFormat) -> Seq<Seq<u8>> {
    let s = plane_sizes(f);
    if s.len() == 1 {
        seq![data.subrange(0, s[0] as int)]
    } else {
        seq![
            data.subrange(0, s[0] as int),
            data.subrange(s[0] as int, (s[0] + s[1]) as int),
            data.subrange((s[0] + s[1]) as int, (s[0] + s[1] + s[2]) as int),
        ]
    }
}

/// The bytes of each plane.
pub open spec fn plane_data(planes: Seq<Plane>) -> Seq<Seq<u8>> {
    Seq::new(planes.len(), |i: int| planes[i].data@)
}

/// Cutting a picture into planes and joining them again gives the same
/// bytes, for every chroma layout.
pub proof fn lemma_planes_round_trip(data: Seq<u8>, f: Y4mFormat)
    requires
        data.len() == picture_bytes(f),
    ensures
        concat_all(split_planes(data, f)) == data,
{
    let s = plane_sizes(f);
    let p = split_planes(data, f);
    let w = f.width as nat;
    let h = f.height as nat;
    if s.len() == 1 {
        assert(p.drop_last() =~= Seq::<Seq<u8>>::empty());
        assert(concat_all(p.drop_last()) =~= Seq::<u8>::empty());
        assert(data.subrange(0, s[0] as int) =~= data);
        assert(Seq::<u8>::empty() + data =~= data);
    } else {
        assert(s[0] + s[1] + s[2] == data.len()) by (nonlinear_arith)
            requires
                data.len() == picture_bytes(f),
                s == plane_sizes(f),
                s.len() == 3,
                w == f.width,
                h == f.height,
        {
        }
        let a = p.drop_last();
        let b = a.drop_last();
        let c = b.drop_last();
        assert(c =~= Seq::<Seq<u8>>::empty());
        assert(concat_all(c) =~= Seq::<u8>::empty());
        assert(concat_all(b) =~= data.subrange(0, s[0] as int));
        assert(concat_all(a) =~= data.subrange(0, (s[0] + s[1]) as int));
        assert(concat_all(p) =~= data);
    }
}

fn copy_range(data: &Vec<u8>, start: usize, end: usize) -> (r: Vec<u8>)
    requires
        start <= end <= data@.len(),
    ensures
        r@ == data@.subrange(start as int, end as int),
{
    let mut out: Vec<u8> = Vec::new();
    let mut i = start;
    while i < end
        invariant
            start <= i <= end <= data@.len(),
            out@ =~= data@.subrange(start as int, i as int),
        decreases end - i,
    {
        out.push(data[i]);
        i += 1;
    }
    out
}

/// A decoder of raw pictures into video frames.
pub struct RawVideoDecoder {
    format: Y4mFormat,
}

impl RawVideoDecoder {
    pub closed spec fn format(&self) -> Y4mFormat {
        self.format
    }

    pub fn new(format: Y4mFormat) -> (r: RawVideoDecoder)
        ensures
            r.format() == format,
    {
        RawVideoDecoder { format }
    }

    /// Cuts a packet of exactly one picture into its planes, with tight
    /// strides and the packet's timing.
    pub fn decode(&mut self, packet: Packet) -> (r: Result<Option<Frame>, MediaError>)
        ensures
            *final(self) == *old(self),
            ({
                let f = old(self).format();
                let len = packet.data@.len();
                if len == 0 {
                    r == Ok::<Option<Frame>, MediaError>(None)
                } else if len != picture_bytes(f) {
                    r == Err::<Option<Frame>, MediaError>(MediaError::InvalidFormat)
                } else {
                    &&& r is Ok
                    &&& r->Ok_0 is Some
                    &&& match r->Ok_0->Some_0 {
                        Frame::Video(v) => {
                            &&& plane_data(v.planes@) == split_planes(packet.data@, f)
                            &&& forall|i: int| 0 <= i < v.planes@.len() ==> #[trigger] v.planes@[i].stride == plane_widths(f)[i]
                            &&& v.width == f.width
                            &&& v.height == f.height
                            &&& v.format == pixel_format_of(f)
                            &&& v.pts == packet.pts
                            &&& v.timebase == packet.timebase
                        },
                        Frame::Audio(_) => false,
                    }
                }
            }),
    {
        let f = self.format;
        let len = packet.data.len();
        if len == 0 {
            return Ok(None);
        }
        let total = match picture_size(&f) {
            Some(n) => n,
            None => return Err(MediaError::InvalidFormat),
        };
        if len != total {
            return Err(MediaError::InvalidFormat);
        }
        let w = f.width as usize;
        let h = f.height as usize;
        let ghost s = plane_sizes(f);
        proof {
            assert(w * h <= total && (w / 2) * h <= total && (w / 2) * (h / 2) <= total)
                by (nonlinear_arith)
                requires
                    w == f.width,
                    h == f.height,
                    total == picture_bytes(f),
                    picture_bytes(f) >= w * h,
            ;
        }
        let luma = w * h;
        let mut planes: Vec<Plane> = Vec::new();
        planes.push(Plane { data: copy_range(&packet.data, 0, luma), stride: w });
        let chroma: Option<(usize, usize)> = match f.colorspace {
            Some(Colorspace::C422) => Some((w / 2, (w / 2) * h)),
            Some(Colorspace::C444) => Some((w, luma)),
            Some(Colorspace::Mono) => None,
            _ => Some((w / 2, (w / 2) * (h / 2))),
        };
        match chroma {
            Some((cw, cs)) => {
                let cb = copy_range(&packet.data, luma, luma + cs);
                let cr = copy_range(&packet.data, luma + cs, luma + cs + cs);
                planes.push(Plane { data: cb, stride: cw });
                planes.push(Plane { data: cr, stride: cw });
            },
            None => {},
        }
        let format = match f.colorspace {
            Some(Colorspace::C422) => PixelFormat::I422,
            Some(Colorspace::C444) => PixelFormat::I444,
            Some(Colorspace::Mono) => PixelFormat::Mono,
            _ => PixelFormat::I420,
        };
        proof {
            assert(plane_data(planes@) =~= split_planes(packet.data@, f));
        }
        let frame = VideoFrame {
            width: f.width,
            height: f.height,
            format,
            planes,
            pts: packet.pts,
            timebase: packet.timebase,
        };
        Ok(Some(Frame::Video(frame)))
    }
}

/// An encoder of video frames into raw picture packets.
pub struct RawVideoEncoder {
    timebase: Timebase,
}

impl RawVideoEncoder {
    pub closed spec fn timebase(&self) -> Timebase {
        self.timebase
    }

    pub fn new(timebase: Timebase) -> (r: RawVideoEncoder)
        ensures
            r.timebase() == timebase,
    {
        RawVideoEncoder { timebase }
    }

    /// Joins a frame's planes in order, without row padding, and rescales
    /// its time stamp into the encoder's time base.
    pub fn encode(&mut self, frame: Frame) -> (r: Result<Option<Packet>, MediaError>)
        requires
            old(self).timebase().wf(),
        ensures
            *final(self) == *old(self),
            match frame {
                Frame::Audio(_) => r == Err::<Option<Packet>, MediaError>(MediaError::InvalidFormat),
                Frame::Video(v) => if !v.timebase.wf() {
                    r == Err::<Option<Packet>, MediaError>(MediaError::InvalidFormat)
                } else {
                    &&& r is Ok
                    &&& r->Ok_0 is Some
                    &&& r->Ok_0->Some_0.data@ == concat_all(plane_data(v.planes@))
                    &&& r->Ok_0->Some_0.pts == rescaled(v.pts, v.timebase, old(self).timebase())
                    &&& r->Ok_0->Some_0.timebase == old(self).timebase()
                    &&& r->Ok_0->Some_0.keyframe
                },
            },
    {
        let v = match frame {
            Frame::Video(v) => v,
            Frame::Audio(_) => return Err(MediaError::InvalidFormat),
        };
        if !(v.timebase.num > 0 && v.timebase.den > 0) {
            return Err(MediaError::InvalidFormat);
        }
        let ghost views = plane_data(v.planes@);
        let mut out: Vec<u8> = Vec::new();
        let mut k: usize = 0;
        while k < v.planes.len()
            invariant
                k <= v.planes@.len(),
                views == plane_data(v.planes@),
                out@ == concat_all(views.subrange(0, k as int)),
            decreases v.planes@.len() - k,
        {
            let ghost before = out@;
            let plane = &v.planes[k];
            let mut i: usize = 0;
            while i < plane.data.len()
                invariant
                    i <= plane.data@.len(),
                    out@ =~= before + plane.data@.subrange(0, i as int),
                decreases plane.data@.len() - i,
            {
                out.push(plane.data[i]);
                i += 1;
            }
            proof {
                assert(plane.data@.subrange(0, plane.data@.len() as int) =~= plane.data@);
                assert(views.subrange(0, k + 1).drop_last() =~= views.subrange(0, k as int));
            }
            k += 1;
        }
        proof {
            assert(views.subrange(0, v.planes@.len() as int) =~= views);
        }
        let pts = rescale(v.pts, v.timebase, self.timebase);
        Ok(Some(Packet::new(out, pts, self.timebase)))
    }
}

} // verus!
