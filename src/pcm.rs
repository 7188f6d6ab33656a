//! The PCM codec: WAV sample bytes to audio frames and back.

use crate::frame::{AudioFrame, Frame, Samples};
use crate::media::{rescale, rescaled, MediaError, Timebase, WavFormat};
use crate::packet::Packet;
use crate::wav::frame_bytes;
use crate::writer::{le_bytes, le_bytes_of};
use vstd::arithmetic::div_mod::lemma_fundamental_div_mod_converse;
use vstd::prelude::*;

verus! {

/// Bytes per sample of a legal bit depth.
pub open spec fn width(depth: u16) -> nat {
    (depth / 8) as nat
}

/// `2^depth`, for the sample widths that WAV PCM allows.
pub open spec fn full_range(depth: u16) -> int {
    if depth == 8 {
        0x100
    } else if depth == 16 {
        0x1_0000
    } else if depth == 24 {
        0x100_0000
    } else {
        0x1_0000_0000
    }
}

/// The little-endian unsigned value of the `n` bytes at offset `i`.
pub open spec fn le_value(b: Seq<u8>, i: int, n: nat) -> int
    decreases n,
{
    if n == 0 {
        0
    } else {
        b[i] + 256 * le_value(b, i + 1, (n - 1) as nat)
    }
}

/// The sample stored at offset `i`: 8-bit samples are unsigned around 128,
/// wider ones are two's complement.
pub open spec fn sample_value(b: Seq<u8>, i: int, depth: u16) -> int {
    let u = le_value(b, i, width(depth));
    if depth == 8 {
        u - 128
    } else if u >= full_range(depth) / 2 {
        u - full_range(depth)
    } else {
        u
    }
}

/// The samples of PCM bytes, in order.
pub open spec fn pcm_values(b: Seq<u8>, depth: u16) -> Seq<int> {
    Seq::new(b.len() / width(depth), |k: int| sample_value(b, k * width(depth), depth))
}

/// `v` clamped to the range of a `depth`-bit sample.
pub open spec fn clamp_sample(v: int, depth: u16) -> int {
    let lo = if depth == 8 {
        -128
    } else {
        -(full_range(depth) / 2)
    };
    let hi = if depth == 8 {
        127
    } else {
        full_range(depth) / 2 - 1
    };
    if v < lo {
        lo
    } else if v > hi {
        hi
    } else {
        v
    }
}

/// The bytes of one sample, saturated to the range of the bit depth.
pub open spec fn sample_bytes(v: int, depth: u16) -> Seq<u8> {
    let c = clamp_sample(v, depth);
    let u = if depth == 8 {
        c + 128
    } else if c < 0 {
        c + full_range(depth)
    } else {
        c
    };
    le_bytes(u as nat, width(depth))
}

/// PCM bytes of a run of samples.
pub open spec fn pcm_bytes(values: Seq<int>, depth: u16) -> Seq<u8>
    decreases values.len(),
{
    if values.len() == 0 {
        Seq::empty()
    } else {
        pcm_bytes(values.drop_last(), depth) + sample_bytes(values.last(), depth)
    }
}

impl Samples {
    /// The samples as integers.
    pub open spec fn values(&self) -> Seq<int> {
        match self {
            Samples::I16(v) => Seq::new(v@.len(), |k: int| v@[k] as int),
            Samples::I32(v) => Seq::new(v@.len(), |k: int| v@[k] as int),
        }
    }
}

proof fn lemma_le_value_bound(b: Seq<u8>, i: int, n: nat)
    requires
        0 <= i,
        i + n <= b.len(),
    ensures
        0 <= le_value(b, i, n) < vstd::arithmetic::power2::pow2(8 * n),
    decreases n,
{
    if n == 0 {
        vstd::arithmetic::power2::lemma2_to64();
    } else {
        lemma_le_value_bound(b, i + 1, (n - 1) as nat);
        vstd::arithmetic::power2::lemma_pow2_adds(8, 8 * (n - 1) as nat);
        vstd::arithmetic::power2::lemma2_to64();
        let r = le_value(b, i + 1, (n - 1) as nat);
        let p = vstd::arithmetic::power2::pow2(8 * (n - 1) as nat);
        assert(b[i] + 256 * r < 256 * p) by (nonlinear_arith)
            requires
                r < p,
                r >= 0,
                b[i] < 256,
        ;
        assert(8 * n == 8 + 8 * (n - 1));
    }
}

/// Writing out the bytes' own value gives the bytes back.
proof fn lemma_le_bytes_of_value(b: Seq<u8>, i: int, n: nat)
    requires
        0 <= i,
        i + n <= b.len(),
    ensures
        le_bytes(le_value(b, i, n) as nat, n) == b.subrange(i, i + n),
    decreases n,
{
    if n == 0 {
        assert(b.subrange(i, i) =~= Seq::<u8>::empty());
    } else {
        lemma_le_bytes_of_value(b, i + 1, (n - 1) as nat);
        lemma_le_value_bound(b, i + 1, (n - 1) as nat);
        let rest = le_value(b, i + 1, (n - 1) as nat);
        let v = le_value(b, i, n);
        lemma_fundamental_div_mod_converse(v, 256, rest, b[i] as int);
        assert(b.subrange(i, i + n) =~= seq![b[i]] + b.subrange(i + 1, i + n));
    }
}

proof fn lemma_full_range(depth: u16)
    requires
        depth == 8 || depth == 16 || depth == 24 || depth == 32,
    ensures
        full_range(depth) == vstd::arithmetic::power2::pow2(8 * width(depth)),
{
    vstd::arithmetic::power2::lemma2_to64();
}

/// A sample read from PCM bytes and written back gives the same bytes.
proof fn lemma_sample_round_trip(b: Seq<u8>, i: int, depth: u16)
    requires
        depth == 8 || depth == 16 || depth == 24 || depth == 32,
        0 <= i,
        i + width(depth) <= b.len(),
    ensures
        sample_bytes(sample_value(b, i, depth), depth) == b.subrange(i, i + width(depth)),
{
    lemma_le_value_bound(b, i, width(depth));
    lemma_full_range(depth);
    lemma_le_bytes_of_value(b, i, width(depth));
}

/// Decoding PCM bytes of whole samples and encoding the samples again gives
/// the same bytes, at every bit depth that WAV PCM allows.
pub proof fn lemma_pcm_round_trip(b: Seq<u8>, depth: u16)
    requires
        depth == 8 || depth == 16 || depth == 24 || depth == 32,
        b.len() % width(depth) == 0,
    ensures
        pcm_bytes(pcm_values(b, depth), depth) == b,
    decreases b.len(),
{
    let w = width(depth);
    if b.len() == 0 {
        assert(pcm_values(b, depth) =~= Seq::<int>::empty());
    } else {
        let n = b.len() / w;
        assert(w > 0);
        assert(b.len() == n * w) by (nonlinear_arith)
            requires
                b.len() % w == 0,
                w > 0,
                n == b.len() / w,
        ;
        assert(n >= 1) by (nonlinear_arith)
            requires
                b.len() == n * w,
                b.len() > 0,
                w > 0,
        ;
        assert(b.len() >= w) by (nonlinear_arith)
            requires
                b.len() == n * w,
                n >= 1,
                w > 0,
        ;
        let shorter = b.subrange(0, b.len() - w);
        assert(shorter.len() == (n - 1) * w) by (nonlinear_arith)
            requires
                shorter.len() == b.len() - w,
                b.len() == n * w,
        ;
        assert(shorter.len() % w == 0 && shorter.len() / w == n - 1) by {
            lemma_fundamental_div_mod_converse(shorter.len() as int, w as int, n - 1, 0);
        }
        lemma_pcm_round_trip(shorter, depth);
        let vals = pcm_values(b, depth);
        let short_vals = pcm_values(shorter, depth);
        assert forall|k: int| 0 <= k < n - 1 implies #[trigger] short_vals[k] == vals[k] by {
            assert(k * w + w <= (n - 1) * w && k * w >= 0) by (nonlinear_arith)
                requires
                    k + 1 <= n - 1,
                    k >= 0,
                    w > 0,
            ;
            lemma_le_value_prefix(b, shorter, k * w, w);
        }
        assert(vals.drop_last() =~= pcm_values(shorter, depth));
        assert((n - 1) * w == b.len() - w) by (nonlinear_arith)
            requires
                b.len() == n * w,
        ;
        lemma_sample_round_trip(b, (n - 1) * w, depth);
        assert(b =~= shorter + b.subrange(b.len() - w, b.len() as int));
    }
}

proof fn lemma_le_value_prefix(b: Seq<u8>, s: Seq<u8>, i: int, n: nat)
    requires
        0 <= i,
        i + n <= s.len(),
        s.len() <= b.len(),
        s == b.subrange(0, s.len() as int),
    ensures
        le_value(s, i, n) == le_value(b, i, n),
    decreases n,
{
    if n > 0 {
        lemma_le_value_prefix(b, s, i + 1, (n - 1) as nat);
    }
}

/// The sample of `depth` bits stored at offset `i`.
fn sample_at(b: &Vec<u8>, i: usize, depth: u16) -> (r: i32)
    requires
        depth == 8 || depth == 16 || depth == 24 || depth == 32,
        i + width(depth) <= b.len(),
    ensures
        r == sample_value(b@, i as int, depth),
{
    let w: usize = (depth / 8) as usize;
    let mut u: u64 = 0;
    let mut j: usize = w;
    proof {
        lemma_full_range(depth);
    }
    while j > 0
        invariant
            j <= w,
            w == width(depth),
            w <= 4,
            i + w <= b.len(),
            u == le_value(b@, i + j, (w - j) as nat),
        decreases j,
    {
        proof {
            lemma_le_value_bound(b@, (i + j) as int, (w - j) as nat);
            vstd::arithmetic::power2::lemma2_to64();
            vstd::arithmetic::power2::lemma_pow2_strictly_increases(8 * (w - j) as nat, 32);
        }
        u = u * 256 + b[i + j - 1] as u64;
        j -= 1;
    }
    proof {
        lemma_le_value_bound(b@, i as int, w as nat);
    }
    let v: i64 = if depth == 8 {
        u as i64 - 128
    } else {
        let full: i64 = if depth == 16 {
            0x1_0000
        } else if depth == 24 {
            0x100_0000
        } else {
            0x1_0000_0000
        };
        if u as i64 >= full / 2 {
            u as i64 - full
        } else {
            u as i64
        }
    };
    v as i32
}

/// A decoder of PCM packets into audio frames.
pub struct PcmDecoder {
    format: WavFormat,
}

impl PcmDecoder {
    pub closed spec fn format(&self) -> WavFormat {
        self.format
    }

    pub fn new(format: WavFormat) -> (r: PcmDecoder)
        ensures
            r.format() == format,
    {
        PcmDecoder { format }
    }

    /// Turns a packet of whole audio frames into one audio frame with the
    /// packet's timing: 8- and 16-bit samples as `i16`, wider ones as `i32`.
    pub fn decode(&mut self, packet: Packet) -> (r: Result<Option<Frame>, MediaError>)
        requires
            old(self).format().is_legal(),
        ensures
            *final(self) == *old(self),
            ({
                let f = old(self).format();
                let len = packet.data@.len();
                if len == 0 {
                    r == Ok::<Option<Frame>, MediaError>(None)
                } else if len % frame_bytes(f) != 0 || f.channels > 255 {
                    r == Err::<Option<Frame>, MediaError>(MediaError::InvalidFormat)
                } else {
                    &&& r is Ok
                    &&& r->Ok_0 is Some
                    &&& match r->Ok_0->Some_0 {
                        Frame::Audio(a) => {
                            &&& a.samples.values() == pcm_values(packet.data@, f.bit_depth)
                            &&& (f.bit_depth <= 16 <==> a.samples is I16)
                            &&& a.sample_count == len / frame_bytes(f)
                            &&& a.channels == f.channels
                            &&& a.sample_rate == f.sample_rate
                            &&& a.pts == packet.pts
                            &&& a.timebase == packet.timebase
                            &&& a.wf()
                        },
                        Frame::Video(_) => false,
                    }
                }
            }),
    {
        let f = self.format;
        let len = packet.data.len();
        if len == 0 {
            return Ok(None);
        }
        let bpf = f.bytes_per_frame();
        proof {
            assert(bpf > 0) by (nonlinear_arith)
                requires
                    f.channels >= 1,
                    f.bit_depth / 8 >= 1,
                    bpf == f.channels * (f.bit_depth / 8),
            ;
        }
        if len % bpf != 0 || f.channels > 255 {
            return Err(MediaError::InvalidFormat);
        }
        let w = f.bytes_per_sample();
        let count = len / w;
        let ghost want = pcm_values(packet.data@, f.bit_depth);
        proof {
            let c = f.channels as int;
            let wi = w as int;
            vstd::arithmetic::div_mod::lemma_fundamental_div_mod(len as int, bpf as int);
            let q = len as int / bpf as int;
            assert(len == (q * c) * wi) by (nonlinear_arith)
                requires
                    len == bpf * q + len % bpf,
                    len % bpf == 0,
                    bpf == c * wi,
            ;
            lemma_fundamental_div_mod_converse(len as int, wi, q * c, 0);
            assert(count == (len / bpf) * c);
        }
        let samples = if f.bit_depth <= 16 {
            let mut v: Vec<i16> = Vec::new();
            let mut k: usize = 0;
            while k < count
                invariant
                    k <= count,
                    count == len / w,
                    w == width(f.bit_depth),
                    w > 0,
                    len == packet.data@.len(),
                    f.bit_depth == 8 || f.bit_depth == 16,
                    want == pcm_values(packet.data@, f.bit_depth),
                    forall|t: int| 0 <= t < k ==> #[trigger] v@[t] as int == want[t],
                    v@.len() == k,
                decreases count - k,
            {
                proof {
                    assert(k * w + w <= len) by (nonlinear_arith)
                        requires
                            k < count,
                            count == len / w,
                            w > 0,
                    ;
                }
                let x = sample_at(&packet.data, k * w, f.bit_depth);
                proof {
                    lemma_le_value_bound(packet.data@, (k * w) as int, w as nat);
                    vstd::arithmetic::power2::lemma2_to64();
                }
                v.push(x as i16);
                k += 1;
            }
            proof {
                assert(Samples::I16(v).values() =~= want);
            }
            Samples::I16(v)
        } else {
            let mut v: Vec<i32> = Vec::new();
            let mut k: usize = 0;
            while k < count
                invariant
                    k <= count,
                    count == len / w,
                    w == width(f.bit_depth),
                    w > 0,
                    len == packet.data@.len(),
                    f.bit_depth == 24 || f.bit_depth == 32,
                    want == pcm_values(packet.data@, f.bit_depth),
                    forall|t: int| 0 <= t < k ==> #[trigger] v@[t] as int == want[t],
                    v@.len() == k,
                decreases count - k,
            {
                proof {
                    assert(k * w + w <= len) by (nonlinear_arith)
                        requires
                            k < count,
                            count == len / w,
                            w > 0,
                    ;
                }
                let x = sample_at(&packet.data, k * w, f.bit_depth);
                v.push(x);
                k += 1;
            }
            proof {
                assert(Samples::I32(v).values() =~= want);
            }
            Samples::I32(v)
        };
        let frame = AudioFrame {
            samples,
            sample_rate: f.sample_rate,
            channels: f.channels as u8,
            sample_count: len / bpf,
            pts: packet.pts,
            timebase: packet.timebase,
        };
        Ok(Some(Frame::Audio(frame)))
    }

    /// PCM keeps nothing back.
    pub fn flush(&mut self) -> (r: Result<Option<Frame>, MediaError>)
        ensures
            r == Ok::<Option<Frame>, MediaError>(None),
    {
        Ok(None)
    }
}

fn sample_of(s: &Samples, k: usize) -> (r: i64)
    requires
        k < s.values().len(),
    ensures
        r == s.values()[k as int],
{
    match s {
        Samples::I16(v) => v[k] as i64,
        Samples::I32(v) => v[k] as i64,
    }
}

fn samples_len(s: &Samples) -> (r: usize)
    ensures
        r == s.values().len(),
{
    match s {
        Samples::I16(v) => v.len(),
        Samples::I32(v) => v.len(),
    }
}

/// Appends the bytes of one sample, saturated to the range of the bit depth.
fn push_sample(out: &mut Vec<u8>, v: i64, depth: u16)
    requires
        depth == 8 || depth == 16 || depth == 24 || depth == 32,
    ensures
        final(out)@ == old(out)@ + sample_bytes(v as int, depth),
{
    let full: i64 = if depth == 8 {
        0x100
    } else if depth == 16 {
        0x1_0000
    } else if depth == 24 {
        0x100_0000
    } else {
        0x1_0000_0000
    };
    let lo: i64 = if depth == 8 {
        -128
    } else {
        -(full / 2)
    };
    let hi: i64 = if depth == 8 {
        127
    } else {
        full / 2 - 1
    };
    let c = if v < lo {
        lo
    } else if v > hi {
        hi
    } else {
        v
    };
    let u: i64 = if depth == 8 {
        c + 128
    } else if c < 0 {
        c + full
    } else {
        c
    };
    let bytes = le_bytes_of(u as u64, (depth / 8) as usize);
    let ghost start = out@;
    let mut i: usize = 0;
    while i < bytes.len()
        invariant
            i <= bytes@.len(),
            out@ =~= start + bytes@.subrange(0, i as int),
        decreases bytes@.len() - i,
    {
        out.push(bytes[i]);
        i += 1;
    }
    proof {
        assert(bytes@.subrange(0, bytes@.len() as int) =~= bytes@);
    }
}

/// An encoder of audio frames into PCM packets.
pub struct PcmEncoder {
    format: WavFormat,
    timebase: Timebase,
}

impl PcmEncoder {
    pub closed spec fn format(&self) -> WavFormat {
        self.format
    }

    pub closed spec fn timebase(&self) -> Timebase {
        self.timebase
    }

    /// An encoder that writes samples in `format` and stamps packets in
    /// ticks of `timebase`.
    pub fn new(format: WavFormat, timebase: Timebase) -> (r: PcmEncoder)
        ensures
            r.format() == format,
            r.timebase() == timebase,
    {
        PcmEncoder { format, timebase }
    }

    /// Writes an audio frame's samples as PCM bytes, saturating each one to
    /// the range of the bit depth, and rescales its time stamp into the
    /// encoder's time base. A frame without samples gives no packet.
    pub fn encode(&mut self, frame: Frame) -> (r: Result<Option<Packet>, MediaError>)
        requires
            old(self).format().is_legal(),
            old(self).timebase().wf(),
        ensures
            *final(self) == *old(self),
            match frame {
                Frame::Video(_) => r == Err::<Option<Packet>, MediaError>(MediaError::InvalidFormat),
                Frame::Audio(a) => if !a.timebase.wf() {
                    r == Err::<Option<Packet>, MediaError>(MediaError::InvalidFormat)
                } else if a.samples.values().len() == 0 {
                    r == Ok::<Option<Packet>, MediaError>(None)
                } else {
                    &&& r is Ok
                    &&& r->Ok_0 is Some
                    &&& r->Ok_0->Some_0.data@ == pcm_bytes(a.samples.values(), old(self).format().bit_depth)
                    &&& r->Ok_0->Some_0.pts == rescaled(a.pts, a.timebase, old(self).timebase())
                    &&& r->Ok_0->Some_0.timebase == old(self).timebase()
                    &&& r->Ok_0->Some_0.stream_index == 0
                    &&& r->Ok_0->Some_0.keyframe
                },
            },
    {
        let a = match frame {
            Frame::Audio(a) => a,
            Frame::Video(_) => return Err(MediaError::InvalidFormat),
        };
        if !(a.timebase.num > 0 && a.timebase.den > 0) {
            return Err(MediaError::InvalidFormat);
        }
        let n = samples_len(&a.samples);
        if n == 0 {
            return Ok(None);
        }
        let depth = self.format.bit_depth;
        let ghost vals = a.samples.values();
        let mut out: Vec<u8> = Vec::new();
        let mut k: usize = 0;
        while k < n
            invariant
                k <= n,
                n == vals.len(),
                vals == a.samples.values(),
                depth == 8 || depth == 16 || depth == 24 || depth == 32,
                out@ == pcm_bytes(vals.subrange(0, k as int), depth),
            decreases n - k,
        {
            let x = sample_of(&a.samples, k);
            proof {
                assert(vals.subrange(0, k + 1).drop_last() =~= vals.subrange(0, k as int));
            }
            push_sample(&mut out, x, depth);
            k += 1;
        }
        proof {
            assert(vals.subrange(0, n as int) =~= vals);
        }
        let pts = rescale(a.pts, a.timebase, self.timebase);
        Ok(Some(Packet::new(out, pts, self.timebase)))
    }

    /// PCM keeps nothing back.
    pub fn flush(&mut self) -> (r: Result<Option<Packet>, MediaError>)
        ensures
            r == Ok::<Option<Packet>, MediaError>(None),
    {
        Ok(None)
    }
}

} // verus!
