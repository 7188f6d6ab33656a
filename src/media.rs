//! Stream descriptors: the PCM format of a WAV stream, time bases, and the
//! rescaling of time stamps between them.

use crate::io::IoError;
use vstd::arithmetic::div_mod::{lemma_div_denominator, lemma_fundamental_div_mod_converse};
use vstd::arithmetic::power2::{lemma2_to64, pow2};
use vstd::bits::lemma_u64_shl_is_mul;
use vstd::prelude::*;

verus! {

/// The kinds of failure of the media layer.
#[derive(Debug, Clone, Copy, PartialEq, Eq)]
pub enum MediaError {
    /// The byte source or sink failed.
    Io(IoError),
    /// A container signature did not match.
    BadMagic,
    /// The format is known but not implemented.
    UnsupportedCodec,
    /// A structural rule of the format was broken.
    InvalidFormat,
    /// The data ended in the middle of a unit that needs more bytes.
    UnexpectedEof,
    /// A writer was used after it was finalized.
    UseAfterFinalize,
    /// Finalizing needed to seek and the sink cannot.
    NonSeekableSink,
    /// A transform failed.
    TransformFailed,
}

/// The PCM layout of a WAV stream.
#[derive(Debug, Clone, Copy, PartialEq, Eq, Structural)]
pub struct WavFormat {
    pub channels: u16,
    pub sample_rate: u32,
    pub bit_depth: u16,
}

/// Whether `bit_depth` is one of the sample widths that WAV PCM allows here.
pub open spec fn legal_bit_depth(bit_depth: u16) -> bool {
    bit_depth == 8 || bit_depth == 16 || bit_depth == 24 || bit_depth == 32
}

impl WavFormat {
    /// At least one channel, a non-zero sample rate and a legal sample width.
    pub open spec fn is_legal(&self) -> bool {
        self.channels >= 1 && self.sample_rate > 0 && legal_bit_depth(self.bit_depth)
    }

    /// Builds a format, refusing one that is not legal.
    pub fn new(channels: u16, sample_rate: u32, bit_depth: u16) -> (r: Result<WavFormat, MediaError>)
        ensures
            match r {
                Ok(f) => f == (WavFormat { channels, sample_rate, bit_depth }) && f.is_legal(),
                Err(e) => e == MediaError::InvalidFormat && !(WavFormat {
                    channels,
                    sample_rate,
                    bit_depth,
                }).is_legal(),
            },
    {
        if channels == 0 || sample_rate == 0 {
            return Err(MediaError::InvalidFormat);
        }
        if !(bit_depth == 8 || bit_depth == 16 || bit_depth == 24 || bit_depth == 32) {
            return Err(MediaError::InvalidFormat);
        }
        Ok(WavFormat { channels, sample_rate, bit_depth })
    }

    pub fn bytes_per_sample(&self) -> (r: usize)
        ensures
            r == self.bit_depth / 8,
    {
        (self.bit_depth / 8) as usize
    }

    pub fn bytes_per_frame(&self) -> (r: usize)
        ensures
            r == self.channels * (self.bit_depth / 8),
            r <= 0xffff * 0x2000,
    {
        let per_sample = (self.bit_depth / 8) as usize;
        proof {
            assert(self.channels * (self.bit_depth / 8) <= 0xffff * 0x2000) by (nonlinear_arith)
                requires
                    self.channels <= 0xffff,
                    self.bit_depth / 8 <= 0x2000,
            ;
        }
        self.channels as usize * per_sample
    }

    /// Bytes of audio per second, as the header's byte-rate field holds it.
    pub fn byte_rate(&self) -> (r: u64)
        ensures
            r == self.sample_rate * (self.channels * (self.bit_depth / 8)),
    {
        let frame = self.bytes_per_frame() as u64;
        proof {
            assert(self.sample_rate * frame <= 0xffff_ffff * (0xffff * 0x2000)) by (nonlinear_arith)
                requires
                    self.sample_rate <= 0xffff_ffff,
                    frame <= 0xffff * 0x2000,
            ;
        }
        self.sample_rate as u64 * frame
    }
}

/// A time base: seconds per tick as the fraction `num / den`.
#[derive(Debug, Clone, Copy, PartialEq, Eq, Structural)]
pub struct Timebase {
    pub num: i64,
    pub den: i64,
}

impl Timebase {
    /// A tick lasts a positive time.
    pub open spec fn wf(&self) -> bool {
        self.num > 0 && self.den > 0
    }

    /// A time base of `num / den` seconds per tick, when both are positive.
    pub fn new(num: i64, den: i64) -> (r: Option<Timebase>)
        ensures
            num > 0 && den > 0 ==> r == Some(Timebase { num, den }),
            !(num > 0 && den > 0) ==> r is None,
    {
        if num > 0 && den > 0 {
            Some(Timebase { num, den })
        } else {
            None
        }
    }
}

/// `n / d` rounded to the nearest integer, ties to the even one (`d > 0`).
pub open spec fn round_half_even(n: int, d: int) -> int {
    let q = n / d;
    let r = n % d;
    if 2 * r > d || (2 * r == d && q % 2 == 1) {
        q + 1
    } else {
        q
    }
}

/// `v` clamped to the range of `i64`.
pub open spec fn clamp_i64(v: int) -> i64 {
    if v > i64::MAX {
        i64::MAX
    } else if v < i64::MIN {
        i64::MIN
    } else {
        v as i64
    }
}

/// A time stamp of `from` expressed in ticks of `to`: rounded half to even,
/// saturated at the range of `i64`.
pub open spec fn rescaled(pts: i64, from: Timebase, to: Timebase) -> i64 {
    clamp_i64(round_half_even(pts * from.num * to.den, from.den * to.num))
}

proof fn lemma_round_negates(m: int, d: int)
    requires
        m >= 0,
        d > 0,
    ensures
        round_half_even(-m, d) == -round_half_even(m, d),
{
    let q = m / d;
    let r = m % d;
    vstd::arithmetic::div_mod::lemma_mod_pos_bound(m, d);
    assert(m == q * d + r) by {
        vstd::arithmetic::div_mod::lemma_fundamental_div_mod(m, d);
    }
    if r == 0 {
        assert(-m == (-q) * d + 0) by (nonlinear_arith)
            requires
                m == q * d + r,
                r == 0,
        ;
        lemma_fundamental_div_mod_converse(-m, d, -q, 0);
    } else {
        assert(-m == (-q - 1) * d + (d - r)) by (nonlinear_arith)
            requires
                m == q * d + r,
        ;
        lemma_fundamental_div_mod_converse(-m, d, -q - 1, d - r);
    }
}

proof fn lemma_round_bounds(n: int, d: int)
    requires
        d > 0,
    ensures
        n / d <= round_half_even(n, d) <= n / d + 1,
{
}

/// The floor of `m * e / d` and its remainder, for `e < d`, by long division
/// over the bits of `m`.
fn mul_div_small(m: u64, e: u128, d: u128) -> (r: (u128, u128))
    requires
        0 < d < 0x4000_0000_0000_0000_0000_0000_0000_0000,
        e < d,
    ensures
        r.0 * d + r.1 == m * e,
        r.1 < d,
        r.0 <= m,
{
    let mut q: u128 = 0;
    let mut rem: u128 = 0;
    let mut k: u64 = 0;
    proof {
        lemma2_to64();
        vstd::arithmetic::div_mod::lemma_basic_div(m as int, pow2(64) as int);
        assert(m as nat / pow2(64) == 0);
        assert((64 - k) as nat == 64);
        let z = m as nat / pow2(64);
        assert(z * e == 0) by (nonlinear_arith)
            requires
                z == 0,
        ;
    }
    while k < 64
        invariant
            k <= 64,
            rem < d,
            0 < d < 0x4000_0000_0000_0000_0000_0000_0000_0000,
            e < d,
            q * d + rem == (m as nat / pow2((64 - k) as nat)) * e,
            q <= m as nat / pow2((64 - k) as nat),
        decreases 64 - k,
    {
        let ghost pre = m as nat / pow2((64 - k) as nat);
        proof {
            vstd::bits::lemma_u64_pow2_no_overflow((63 - k) as nat);
            lemma_u64_shl_is_mul(1, (63 - k) as u64);
            vstd::arithmetic::power2::lemma_pow2_unfold((64 - k) as nat);
            lemma_div_denominator(m as int, pow2((63 - k) as nat) as int, 2);
        }
        let pw: u64 = 1u64 << (63 - k);
        let cur: u64 = m / pw;
        let b: u128 = (cur % 2) as u128;
        proof {
            assert(cur == 2 * pre + b);
            assert(pre * d <= m * d) by (nonlinear_arith)
                requires
                    pre <= m,
            ;
            assert(q * d <= pre * e) by (nonlinear_arith)
                requires
                    q * d + rem == pre * e,
            ;
            assert(pre * e <= pre * d) by (nonlinear_arith)
                requires
                    e < d,
            ;
            assert(b * e <= e) by (nonlinear_arith)
                requires
                    b <= 1,
            ;
        }
        let t: u128 = 2 * rem + b * e;
        let nq: u128 = 2 * q + t / d;
        let nrem: u128 = t % d;
        proof {
            assert(t < 3 * d);
            assert(t / d <= 2) by (nonlinear_arith)
                requires
                    t < 3 * d,
                    d > 0,
            ;
            vstd::arithmetic::div_mod::lemma_fundamental_div_mod(t as int, d as int);
            assert(nq * d + nrem == cur * e) by (nonlinear_arith)
                requires
                    nq == 2 * q + t / d,
                    nrem == t % d,
                    t == 2 * rem + b * e,
                    t == d * (t / d) + t % d,
                    q * d + rem == pre * e,
                    cur == 2 * pre + b,
            ;
            assert(nq <= cur) by (nonlinear_arith)
                requires
                    nq * d + nrem == cur * e,
                    e < d,
                    d > 0,
                    nrem >= 0,
            ;
        }
        q = nq;
        rem = nrem;
        k += 1;
    }
    proof {
        lemma2_to64();
        assert(m as nat / pow2(0) == m);
    }
    (q, rem)
}

/// Converts the time stamp `pts` from ticks of `from` to ticks of `to`.
pub fn rescale(pts: i64, from: Timebase, to: Timebase) -> (r: i64)
    requires
        from.wf(),
        to.wf(),
    ensures
        r == rescaled(pts, from, to),
{
    proof {
        assert(from.num * to.den < 0x4000_0000_0000_0000_0000_0000_0000_0000) by (nonlinear_arith)
            requires
                0 < from.num <= i64::MAX,
                0 < to.den <= i64::MAX,
        ;
        assert(0 < from.den * to.num < 0x4000_0000_0000_0000_0000_0000_0000_0000) by (nonlinear_arith)
            requires
                0 < from.den <= i64::MAX,
                0 < to.num <= i64::MAX,
        ;
    }
    let p: u128 = from.num as u128 * to.den as u128;
    let d: u128 = from.den as u128 * to.num as u128;
    let negative = pts < 0;
    let m: u64 = if negative {
        (-(pts as i128)) as u64
    } else {
        pts as u64
    };
    let c: u128 = p / d;
    let e: u128 = p % d;
    let (q, rem) = mul_div_small(m, e, d);
    let ghost mag: int = m * p;
    let ghost qt: int = m * c + q;
    proof {
        vstd::arithmetic::div_mod::lemma_fundamental_div_mod(p as int, d as int);
        assert(mag == qt * d + rem) by (nonlinear_arith)
            requires
                mag == m * p,
                qt == m * c + q,
                p == d * c + e,
                q * d + rem == m * e,
        ;
        lemma_fundamental_div_mod_converse(mag, d as int, qt, rem as int);
        lemma_round_bounds(mag, d as int);
        lemma_round_negates(mag, d as int);
        if negative {
            assert(pts * from.num * to.den == -mag) by (nonlinear_arith)
                requires
                    mag == m * p,
                    m == -pts,
                    p == from.num * to.den,
            ;
        } else {
            assert(pts * from.num * to.den == mag) by (nonlinear_arith)
                requires
                    mag == m * p,
                    m == pts,
                    p == from.num * to.den,
            ;
        }
    }
    let limit: u128 = 0x1_0000_0000_0000_0000;
    let saturated = if negative {
        i64::MIN
    } else {
        i64::MAX
    };
    if m > 0 && c >= limit {
        proof {
            assert(qt >= c) by (nonlinear_arith)
                requires
                    qt == m * c + q,
                    m >= 1,
                    c >= 0,
                    q >= 0,
            ;
        }
        return saturated;
    }
    proof {
        assert(m * c <= 0xffff_ffff_ffff_ffff * 0xffff_ffff_ffff_ffff) by (nonlinear_arith)
            requires
                m <= 0xffff_ffff_ffff_ffff,
                c <= 0xffff_ffff_ffff_ffff || m == 0,
        ;
    }
    let mc: u128 = m as u128 * c;
    if mc >= limit {
        return saturated;
    }
    let total: u128 = mc + q;
    let up = 2 * rem > d || (2 * rem == d && total % 2 == 1);
    let rounded: u128 = if up {
        total + 1
    } else {
        total
    };
    if negative {
        if rounded > 0x8000_0000_0000_0000 {
            i64::MIN
        } else {
            (-(rounded as i128)) as i64
        }
    } else {
        if rounded > 0x7fff_ffff_ffff_ffff {
            i64::MAX
        } else {
            rounded as i64
        }
    }
}

/// When the target ticks divide the source ticks evenly, rescaling loses
/// nothing: the result is the exact quotient (saturated at the range of `i64`).
pub proof fn lemma_rescale_exact(pts: i64, from: Timebase, to: Timebase)
    requires
        from.wf(),
        to.wf(),
        (pts * from.num * to.den) % (from.den * to.num) == 0,
    ensures
        rescaled(pts, from, to) == clamp_i64((pts * from.num * to.den) / (from.den * to.num)),
{
    assert(from.den * to.num > 0) by (nonlinear_arith)
        requires
            from.den > 0,
            to.num > 0,
    ;
}

/// Rescaling into the same time base changes nothing.
pub proof fn lemma_rescale_same(pts: i64, t: Timebase)
    requires
        t.wf(),
    ensures
        rescaled(pts, t, t) == pts,
{
    let d = t.den * t.num;
    assert(d > 0) by (nonlinear_arith)
        requires
            d == t.den * t.num,
            t.den > 0,
            t.num > 0,
    ;
    assert(pts * t.num * t.den == pts * d) by (nonlinear_arith)
        requires
            d == t.den * t.num,
    ;
    lemma_fundamental_div_mod_converse(pts * d, d, pts as int, 0);
}

} // verus!
