//! The WAV (RIFF) container: locating the PCM format and data chunk, and
//! cutting the data into timed packets.

use crate::media::{MediaError, Timebase, WavFormat};
use vstd::arithmetic::div_mod::lemma_fundamental_div_mod_converse;
use crate::packet::Packet;
use crate::writer::{le_bytes, le_bytes_of, lemma_le_bytes_len};
use vstd::prelude::*;

verus! {

/// Audio frames (one sample of every channel) per packet, except the last.
pub const PACKET_FRAMES: usize = 1024;

/// The little-endian 16-bit value at offset `i`.
pub open spec fn u16_at(b: Seq<u8>, i: int) -> nat {
    (b[i] + 256 * b[i + 1]) as nat
}

/// The little-endian 32-bit value at offset `i`.
pub open spec fn u32_at(b: Seq<u8>, i: int) -> nat {
    (u16_at(b, i) + 65536 * u16_at(b, i + 2)) as nat
}

/// Whether the four bytes at offset `i` are the tag `t`.
pub open spec fn tag_at(b: Seq<u8>, i: int, t: Seq<u8>) -> bool {
    0 <= i && i + 4 <= b.len() && b.subrange(i, i + 4) == t
}

/// `RIFF` in ASCII.
pub open spec fn riff_tag() -> Seq<u8> {
    seq![0x52u8, 0x49, 0x46, 0x46]
}

/// `WAVE` in ASCII.
pub open spec fn wave_tag() -> Seq<u8> {
    seq![0x57u8, 0x41, 0x56, 0x45]
}

/// `fmt ` in ASCII.
pub open spec fn fmt_tag() -> Seq<u8> {
    seq![0x66u8, 0x6d, 0x74, 0x20]
}

/// `data` in ASCII.
pub open spec fn data_tag() -> Seq<u8> {
    seq![0x64u8, 0x61, 0x74, 0x61]
}

/// Where the PCM data of a WAV file lies, and how it is laid out.
#[derive(Debug, Clone, Copy, PartialEq, Eq, Structural)]
pub struct WavLayout {
    pub format: WavFormat,
    /// Offset of the first byte of the data chunk's body.
    pub data_start: usize,
    /// Length of the data chunk's body as its header declares it.
    pub data_len: u32,
}

/// The format that a `fmt ` chunk body at `body` declares, unless the body
/// is too short, not PCM, or not a legal format.
pub open spec fn fmt_chunk(b: Seq<u8>, body: int, size: nat) -> Result<WavFormat, MediaError> {
    if size < 16 || body + 16 > b.len() {
        Err(MediaError::InvalidFormat)
    } else if u16_at(b, body) != 1 {
        Err(MediaError::UnsupportedCodec)
    } else {
        let f = WavFormat {
            channels: u16_at(b, body + 2) as u16,
            sample_rate: u32_at(b, body + 4) as u32,
            bit_depth: u16_at(b, body + 14) as u16,
        };
        if f.is_legal() {
            Ok(f)
        } else {
            Err(MediaError::InvalidFormat)
        }
    }
}

/// The chunk walk from offset `pos`, with the format found so far: the
/// first `data` chunk ends it, and needs a format before it.
pub open spec fn scan_chunks(b: Seq<u8>, pos: nat, fmt: Option<WavFormat>) -> Result<WavLayout, MediaError>
    decreases b.len() - pos,
{
    if pos + 8 > b.len() {
        Err(MediaError::InvalidFormat)
    } else {
        let size = u32_at(b, pos + 4 as int);
        let body = pos + 8;
        if tag_at(b, pos as int, data_tag()) {
            match fmt {
                Some(f) => Ok(WavLayout { format: f, data_start: body as usize, data_len: size as u32 }),
                None => Err(MediaError::InvalidFormat),
            }
        } else if body + size > b.len() {
            Err(MediaError::InvalidFormat)
        } else if tag_at(b, pos as int, fmt_tag()) {
            match fmt_chunk(b, body as int, size) {
                Ok(f) => scan_chunks(b, (body + size) as nat, Some(f)),
                Err(e) => Err(e),
            }
        } else {
            scan_chunks(b, (body + size) as nat, fmt)
        }
    }
}

/// The layout of a WAV file: `RIFF` at 0 and `WAVE` at 8, then chunks.
pub open spec fn wav_layout(b: Seq<u8>) -> Result<WavLayout, MediaError> {
    if !(tag_at(b, 0, riff_tag()) && tag_at(b, 8, wave_tag())) {
        Err(MediaError::BadMagic)
    } else {
        scan_chunks(b, 12, None)
    }
}

fn u16_le(b: &Vec<u8>, i: usize) -> (r: u16)
    requires
        i + 2 <= b.len(),
    ensures
        r == u16_at(b@, i as int),
{
    b[i] as u16 + 256 * b[i + 1] as u16
}

fn u32_le(b: &Vec<u8>, i: usize) -> (r: u32)
    requires
        i + 4 <= b.len(),
    ensures
        r == u32_at(b@, i as int),
{
    u16_le(b, i) as u32 + 65536 * u16_le(b, i + 2) as u32
}

fn has_tag(b: &Vec<u8>, i: usize, t: [u8; 4]) -> (r: bool)
    requires
        i + 4 <= b.len(),
    ensures
        r == (b@.subrange(i as int, i + 4) == t@),
{
    let ok = b[i] == t[0] && b[i + 1] == t[1] && b[i + 2] == t[2] && b[i + 3] == t[3];
    proof {
        let s = b@.subrange(i as int, i + 4);
        if ok {
            assert(s =~= t@);
        } else {
            assert(s[0] != t@[0] || s[1] != t@[1] || s[2] != t@[2] || s[3] != t@[3]);
        }
    }
    ok
}

fn read_fmt_chunk(b: &Vec<u8>, body: usize, size: u32) -> (r: Result<WavFormat, MediaError>)
    requires
        body <= b@.len(),
    ensures
        r == fmt_chunk(b@, body as int, size as nat),
{
    if size < 16 || b.len() - body < 16 {
        return Err(MediaError::InvalidFormat);
    }
    if u16_le(b, body) != 1 {
        return Err(MediaError::UnsupportedCodec);
    }
    WavFormat::new(u16_le(b, body + 2), u32_le(b, body + 4), u16_le(b, body + 14))
}

/// Finds the format and the data chunk of a WAV file.
pub fn parse_wav_layout(b: &Vec<u8>) -> (r: Result<WavLayout, MediaError>)
    ensures
        r == wav_layout(b@),
{
    let riff: [u8; 4] = [82, 73, 70, 70];
    let wave: [u8; 4] = [87, 65, 86, 69];
    let data: [u8; 4] = [100, 97, 116, 97];
    let fmt: [u8; 4] = [102, 109, 116, 32];
    proof {
        assert(riff@ =~= riff_tag());
        assert(wave@ =~= wave_tag());
        assert(data@ =~= data_tag());
        assert(fmt@ =~= fmt_tag());
    }
    if b.len() < 12 || !has_tag(b, 0, riff) || !has_tag(b, 8, wave) {
        return Err(MediaError::BadMagic);
    }
    let mut pos: usize = 12;
    let mut found: Option<WavFormat> = None;
    while b.len() - pos >= 8
        invariant
            12 <= pos <= b@.len(),
            wav_layout(b@) == scan_chunks(b@, pos as nat, found),
            data@ == data_tag(),
            fmt@ == fmt_tag(),
        decreases b@.len() - pos,
    {
        let size = u32_le(b, pos + 4);
        let body = pos + 8;
        if has_tag(b, pos, data) {
            return match found {
                Some(f) => Ok(WavLayout { format: f, data_start: body, data_len: size }),
                None => Err(MediaError::InvalidFormat),
            };
        }
        if size as usize > b.len() - body {
            return Err(MediaError::InvalidFormat);
        }
        if has_tag(b, pos, fmt) {
            match read_fmt_chunk(b, body, size) {
                Ok(f) => {
                    found = Some(f);
                },
                Err(e) => {
                    return Err(e);
                },
            }
        }
        pos = body + size as usize;
    }
    Err(MediaError::InvalidFormat)
}

proof fn lemma_scan_ok(b: Seq<u8>, pos: nat, fmt: Option<WavFormat>)
    requires
        fmt is Some ==> fmt->Some_0.is_legal(),
    ensures
        scan_chunks(b, pos, fmt) is Ok ==> scan_chunks(b, pos, fmt)->Ok_0.data_start <= b.len()
            && scan_chunks(b, pos, fmt)->Ok_0.format.is_legal(),
    decreases b.len() - pos,
{
    if pos + 8 <= b.len() {
        let size = u32_at(b, pos + 4 as int);
        let body = pos + 8;
        if !tag_at(b, pos as int, data_tag()) && body + size <= b.len() {
            if tag_at(b, pos as int, fmt_tag()) {
                if let Ok(f) = fmt_chunk(b, body as int, size) {
                    lemma_scan_ok(b, (body + size) as nat, Some(f));
                }
            } else {
                lemma_scan_ok(b, (body + size) as nat, fmt);
            }
        }
    }
}

/// The time base of WAV packets: one tick per audio frame.
pub open spec fn sample_timebase(f: WavFormat) -> Timebase {
    Timebase { num: 1, den: f.sample_rate as i64 }
}

/// Bytes per audio frame of a format.
pub open spec fn frame_bytes(f: WavFormat) -> nat {
    (f.channels * (f.bit_depth / 8)) as nat
}

/// A demuxer for WAV files held in memory. It hands out the data chunk in
/// packets of whole audio frames.
pub struct WavReader {
    bytes: Vec<u8>,
    layout: WavLayout,
    pos: usize,
    data_end: usize,
}

impl WavReader {
    /// The whole file.
    pub closed spec fn file(&self) -> Seq<u8> {
        self.bytes@
    }

    /// The format and data chunk found in the file.
    pub closed spec fn layout(&self) -> WavLayout {
        self.layout
    }

    /// Offset in the file of the next byte to hand out.
    pub closed spec fn position(&self) -> nat {
        self.pos as nat
    }

    /// The end of the data that the file holds: the declared end of the
    /// data chunk, or the end of the file if it comes first.
    pub open spec fn data_end(&self) -> nat {
        let declared = self.layout().data_start + self.layout().data_len;
        if declared <= self.file().len() {
            declared as nat
        } else {
            self.file().len()
        }
    }

    /// The file ends before the data chunk does.
    pub open spec fn truncated(&self) -> bool {
        self.layout().data_start + self.layout().data_len > self.file().len()
    }

    /// Audio frames handed out so far.
    pub open spec fn frames_read(&self) -> nat {
        ((self.position() - self.layout().data_start) / (frame_bytes(self.layout().format) as int)) as nat
    }

    pub closed spec fn wf(&self) -> bool {
        &&& wav_layout(self.bytes@) == Ok::<WavLayout, MediaError>(self.layout)
        &&& self.layout.format.is_legal()
        &&& self.layout.data_start <= self.pos <= self.data_end
        &&& self.data_end == self.data_end()
        &&& (self.pos - self.layout.data_start) % frame_bytes(self.layout.format) as int == 0
    }

    /// Opens a WAV file held in `data`.
    pub fn new(data: Vec<u8>) -> (r: Result<WavReader, MediaError>)
        ensures
            match wav_layout(data@) {
                Ok(l) => r is Ok && r->Ok_0.wf() && r->Ok_0.file() == data@ && r->Ok_0.layout() == l
                    && r->Ok_0.position() == l.data_start,
                Err(e) => r == Err::<WavReader, MediaError>(e),
            },
    {
        let layout = match parse_wav_layout(&data) {
            Ok(l) => l,
            Err(e) => return Err(e),
        };
        proof {
            lemma_scan_ok(data@, 12, None);
        }
        let room = data.len() - layout.data_start;
        let data_end = if (layout.data_len as usize) <= room {
            layout.data_start + layout.data_len as usize
        } else {
            data.len()
        };
        let r = WavReader { bytes: data, layout, pos: layout.data_start, data_end };
        proof {
            assert(frame_bytes(layout.format) > 0) by (nonlinear_arith)
                requires
                    layout.format.channels >= 1,
                    layout.format.bit_depth / 8 >= 1,
            ;
            assert(0int % (frame_bytes(layout.format) as int) == 0) by (nonlinear_arith)
                requires
                    frame_bytes(layout.format) > 0,
            ;
        }
        Ok(r)
    }

    pub fn format(&self) -> (r: WavFormat)
        ensures
            r == self.layout().format,
    {
        self.layout.format
    }

    pub fn stream_count(&self) -> (r: usize)
        ensures
            r == 1,
    {
        1
    }

    /// Hands out the next packet: up to `PACKET_FRAMES` whole audio frames
    /// of the data chunk, stamped with the number of frames before them.
    /// Ends with `None` at the end of the data chunk; a file that stops
    /// early, or in the middle of a frame, ends with `UnexpectedEof`.
    pub fn read_packet(&mut self) -> (r: Result<Option<Packet>, MediaError>)
        requires
            old(self).wf(),
        ensures
            final(self).wf(),
            final(self).file() == old(self).file(),
            final(self).layout() == old(self).layout(),
            ({
                let f = old(self).layout().format;
                let left = old(self).data_end() - old(self).position();
                match r {
                    Ok(Some(p)) => {
                        &&& left >= frame_bytes(f)
                        &&& p.data@ == old(self).file().subrange(
                            old(self).position() as int,
                            final(self).position() as int,
                        )
                        &&& p.data@.len() > 0
                        &&& p.data@.len() % frame_bytes(f) == 0
                        &&& p.data@.len() == if left >= PACKET_FRAMES * frame_bytes(f) {
                            (PACKET_FRAMES * frame_bytes(f)) as int
                        } else {
                            left - left % (frame_bytes(f) as int)
                        }
                        &&& p.pts == old(self).frames_read()
                        &&& final(self).frames_read() == old(self).frames_read() + p.data@.len()
                            / frame_bytes(f)
                        &&& p.timebase == sample_timebase(f)
                        &&& p.stream_index == 0
                        &&& p.keyframe
                    },
                    Ok(None) => left == 0 && !old(self).truncated() && *final(self) == *old(self),
                    Err(e) => e == MediaError::UnexpectedEof && (left < frame_bytes(f) && (left > 0
                        || old(self).truncated())) && *final(self) == *old(self),
                }
            }),
    {
        let ghost f = self.layout.format;
        let bpf = self.layout.format.bytes_per_frame();
        proof {
            assert(bpf > 0) by (nonlinear_arith)
                requires
                    f.channels >= 1,
                    f.bit_depth / 8 >= 1,
                    bpf == f.channels * (f.bit_depth / 8),
            ;
        }
        let left = self.data_end - self.pos;
        if left == 0 {
            if self.layout.data_len as usize > self.bytes.len() - self.layout.data_start {
                return Err(MediaError::UnexpectedEof);
            }
            return Ok(None);
        }
        if left < bpf {
            return Err(MediaError::UnexpectedEof);
        }
        let cap = PACKET_FRAMES * bpf;
        let n = if left >= cap {
            cap
        } else {
            left - left % bpf
        };
        proof {
            let bi = bpf as int;
            let li = left as int;
            if left >= cap {
                vstd::arithmetic::div_mod::lemma_mod_multiples_basic(1024, bi);
            } else {
                let q = li / bi;
                vstd::arithmetic::div_mod::lemma_fundamental_div_mod(li, bi);
                vstd::arithmetic::div_mod::lemma_mod_pos_bound(li, bi);
                vstd::arithmetic::div_mod::lemma_mod_multiples_basic(q, bi);
                assert(n == q * bi) by (nonlinear_arith)
                    requires
                        li == bi * q + li % bi,
                        n == li - li % bi,
                ;
                assert(q >= 1) by (nonlinear_arith)
                    requires
                        li == bi * q + li % bi,
                        li % bi < bi,
                        li >= bi,
                        bi > 0,
                ;
                assert(n > 0) by (nonlinear_arith)
                    requires
                        n == q * bi,
                        q >= 1,
                        bi > 0,
                ;
            }
            assert(self.pos + n <= self.bytes@.len());
        }
        let start = self.pos;
        let end = start + n;
        let mut out: Vec<u8> = Vec::new();
        let mut i: usize = start;
        while i < end
            invariant
                start <= i <= end,
                end == start + n,
                end <= self.bytes@.len(),
                out@ =~= self.bytes@.subrange(start as int, i as int),
            decreases end - i,
        {
            out.push(self.bytes[i]);
            i += 1;
        }
        let frames = (start - self.layout.data_start) / bpf;
        let ghost done = (start - self.layout.data_start) as int;
        self.pos = end;
        proof {
            let ni = n as int;
            let bi = bpf as int;
            let a = done / bi;
            let c = ni / bi;
            vstd::arithmetic::div_mod::lemma_fundamental_div_mod(done, bi);
            vstd::arithmetic::div_mod::lemma_fundamental_div_mod(ni, bi);
            assert(done + ni == (a + c) * bi) by (nonlinear_arith)
                requires
                    done == bi * a + done % bi,
                    done % bi == 0,
                    ni == bi * c + ni % bi,
                    ni % bi == 0,
            ;
            lemma_fundamental_div_mod_converse(done + ni, bi, a + c, 0);
            assert(frames <= 0xffff_ffff);
        }
        let rate = self.layout.format.sample_rate as i64;
        Ok(Some(Packet::new(out, frames as i64, Timebase { num: 1, den: rate })))
    }
}

/// The packets' bytes one after another.
pub open spec fn concat_all(packets: Seq<Seq<u8>>) -> Seq<u8>
    decreases packets.len(),
{
    if packets.len() == 0 {
        Seq::empty()
    } else {
        concat_all(packets.drop_last()) + packets.last()
    }
}

/// Packets cut from one byte sequence at increasing offsets `cuts`, each from
/// one cut to the next, join up to the bytes from the first cut to the last.
/// With the packets of `WavReader::read_packet`, which cuts at its position
/// before and after each packet, this gives the data chunk back.
pub proof fn lemma_packets_concatenate(bytes: Seq<u8>, cuts: Seq<int>, packets: Seq<Seq<u8>>)
    requires
        cuts.len() == packets.len() + 1,
        forall|i: int| 0 <= i < cuts.len() ==> 0 <= #[trigger] cuts[i] <= bytes.len(),
        forall|i: int, j: int| 0 <= i <= j < cuts.len() ==> #[trigger] cuts[i] <= #[trigger] cuts[j],
        forall|i: int|
            0 <= i < packets.len() ==> #[trigger] packets[i] == bytes.subrange(cuts[i], cuts[i + 1]),
    ensures
        concat_all(packets) == bytes.subrange(cuts[0], cuts.last()),
    decreases packets.len(),
{
    if packets.len() == 0 {
        assert(bytes.subrange(cuts[0], cuts[0]) =~= Seq::<u8>::empty());
    } else {
        let k = packets.len() - 1;
        let fewer = packets.drop_last();
        let first_cuts = cuts.drop_last();
        assert forall|i: int| 0 <= i < fewer.len() implies #[trigger] fewer[i] == bytes.subrange(
            first_cuts[i],
            first_cuts[i + 1],
        ) by {
            assert(packets[i] == bytes.subrange(cuts[i], cuts[i + 1]));
        }
        lemma_packets_concatenate(bytes, first_cuts, fewer);
        assert(packets[k] == bytes.subrange(cuts[k], cuts[k + 1]));
        assert(cuts[0] <= cuts[k] && cuts[k] <= cuts[k + 1]);
        assert(bytes.subrange(cuts[0], cuts[k]) + bytes.subrange(cuts[k], cuts[k + 1])
            =~= bytes.subrange(cuts[0], cuts[k + 1]));
    }
}

/// Once a reader has reached the end of a complete data chunk, it has handed
/// out exactly the data chunk, and its frame count covers all of it.
pub proof fn lemma_finished_reader_read_all(r: WavReader)
    requires
        r.wf(),
        r.position() == r.data_end(),
        !r.truncated(),
    ensures
        r.file().subrange(r.layout().data_start as int, r.position() as int) == r.file().subrange(
            r.layout().data_start as int,
            r.layout().data_start + r.layout().data_len,
        ),
        r.frames_read() * frame_bytes(r.layout().format) == r.layout().data_len,
{
    let bi = frame_bytes(r.layout().format) as int;
    let done = r.position() - r.layout().data_start;
    assert(bi > 0) by (nonlinear_arith)
        requires
            r.layout().format.channels >= 1,
            r.layout().format.bit_depth / 8 >= 1,
            bi == r.layout().format.channels * (r.layout().format.bit_depth / 8),
    ;
    vstd::arithmetic::div_mod::lemma_fundamental_div_mod(done, bi);
    let q = done / bi;
    assert(q * bi == done) by (nonlinear_arith)
        requires
            done == bi * q + done % bi,
            done % bi == 0,
    ;
}

/// The canonical 44-byte header of a PCM WAV file whose data chunk holds
/// `data_len` bytes. Sizes are written modulo `2^32`, as the fields hold them.
pub open spec fn wav_header(f: WavFormat, data_len: nat) -> Seq<u8> {
    riff_tag() + le_bytes(36 + data_len, 4) + wave_tag() + fmt_tag() + le_bytes(16, 4) + le_bytes(1, 2)
        + le_bytes(f.channels as nat, 2) + le_bytes(f.sample_rate as nat, 4) + le_bytes(
        (f.sample_rate * frame_bytes(f)) as nat,
        4,
    ) + le_bytes(frame_bytes(f), 2) + le_bytes(f.bit_depth as nat, 2) + data_tag() + le_bytes(
        data_len,
        4,
    )
}

proof fn lemma_header_len(f: WavFormat, data_len: nat)
    ensures
        wav_header(f, data_len).len() == 44,
{
    lemma_le_bytes_len(36 + data_len, 4);
    lemma_le_bytes_len(16, 4);
    lemma_le_bytes_len(1, 2);
    lemma_le_bytes_len(f.channels as nat, 2);
    lemma_le_bytes_len(f.sample_rate as nat, 4);
    lemma_le_bytes_len((f.sample_rate * frame_bytes(f)) as nat, 4);
    lemma_le_bytes_len(frame_bytes(f), 2);
    lemma_le_bytes_len(f.bit_depth as nat, 2);
    lemma_le_bytes_len(data_len, 4);
}

/// The largest data chunk whose RIFF size field still fits in 32 bits.
pub const MAX_DATA_BYTES: u32 = 0xffff_ffff - 36;

fn append(out: &mut Vec<u8>, bytes: &Vec<u8>)
    ensures
        final(out)@ == old(out)@ + bytes@,
{
    let ghost start = out@;
    let mut i: usize = 0;
    while i < bytes.len()
        invariant
            i <= bytes@.len(),
            out@ =~= start + bytes@.subrange(0, i as int),
        decreases bytes@.len() - i,
    {
        out.push(bytes[i]);
        i += 1;
    }
    proof {
        assert(bytes@.subrange(0, bytes@.len() as int) =~= bytes@);
    }
}

fn append_le(out: &mut Vec<u8>, v: u64, n: usize)
    requires
        n <= 8,
    ensures
        final(out)@ == old(out)@ + le_bytes(v as nat, n as nat),
{
    let bytes = le_bytes_of(v, n);
    append(out, &bytes);
}

fn header_bytes(f: WavFormat, data_len: u32) -> (r: Vec<u8>)
    requires
        f.is_legal(),
    ensures
        r@ == wav_header(f, data_len as nat),
{
    let mut out: Vec<u8> = Vec::new();
    let frame = f.bytes_per_frame();
    append(&mut out, &vec![0x52u8, 0x49, 0x46, 0x46]);
    append_le(&mut out, 36 + data_len as u64, 4);
    append(&mut out, &vec![0x57u8, 0x41, 0x56, 0x45]);
    append(&mut out, &vec![0x66u8, 0x6d, 0x74, 0x20]);
    append_le(&mut out, 16, 4);
    append_le(&mut out, 1, 2);
    append_le(&mut out, f.channels as u64, 2);
    append_le(&mut out, f.sample_rate as u64, 4);
    append_le(&mut out, f.byte_rate(), 4);
    append_le(&mut out, frame as u64, 2);
    append_le(&mut out, f.bit_depth as u64, 2);
    append(&mut out, &vec![0x64u8, 0x61, 0x74, 0x61]);
    append_le(&mut out, data_len as u64, 4);
    proof {
        assert(out@ =~= wav_header(f, data_len as nat));
    }
    out
}

/// A muxer that writes a WAV file into memory: the header first, with its
/// sizes left at zero, then the packets' bytes; finalizing fills the sizes in.
pub struct WavWriter {
    out: Vec<u8>,
    format: WavFormat,
    data_bytes: u32,
    data: Ghost<Seq<u8>>,
    finalized: bool,
}

impl WavWriter {
    pub closed spec fn output(&self) -> Seq<u8> {
        self.out@
    }

    pub closed spec fn format_view(&self) -> WavFormat {
        self.format
    }

    /// The bytes of all packets written so far.
    pub closed spec fn written(&self) -> Seq<u8> {
        self.data@
    }

    pub closed spec fn is_finalized(&self) -> bool {
        self.finalized
    }

    pub closed spec fn wf(&self) -> bool {
        &&& self.format.is_legal()
        &&& self.data_bytes == self.data@.len()
        &&& self.data_bytes <= MAX_DATA_BYTES
        &&& self.out@ == wav_header(
            self.format,
            if self.finalized {
                self.data@.len()
            } else {
                0
            },
        ) + self.data@
    }

    pub fn new(format: WavFormat) -> (r: Result<WavWriter, MediaError>)
        ensures
            format.is_legal() ==> r is Ok && r->Ok_0.wf() && r->Ok_0.format_view() == format
                && r->Ok_0.written() == Seq::<u8>::empty() && !r->Ok_0.is_finalized(),
            !format.is_legal() ==> r == Err::<WavWriter, MediaError>(MediaError::InvalidFormat),
    {
        if format.channels == 0 || format.sample_rate == 0 || !(format.bit_depth == 8
            || format.bit_depth == 16 || format.bit_depth == 24 || format.bit_depth == 32) {
            return Err(MediaError::InvalidFormat);
        }
        let out = header_bytes(format, 0);
        proof {
            assert(out@ + Seq::<u8>::empty() =~= out@);
        }
        Ok(WavWriter { out, format, data_bytes: 0, data: Ghost(Seq::empty()), finalized: false })
    }

    /// Appends a packet's bytes to the data chunk.
    pub fn write_packet(&mut self, packet: Packet) -> (r: Result<(), MediaError>)
        requires
            old(self).wf(),
        ensures
            final(self).wf(),
            final(self).format_view() == old(self).format_view(),
            final(self).is_finalized() == old(self).is_finalized(),
            old(self).is_finalized() ==> r == Err::<(), MediaError>(MediaError::UseAfterFinalize)
                && final(self).written() == old(self).written(),
            !old(self).is_finalized() && old(self).written().len() + packet.data@.len()
                > MAX_DATA_BYTES ==> r == Err::<(), MediaError>(MediaError::InvalidFormat)
                && final(self).written() == old(self).written(),
            !old(self).is_finalized() && old(self).written().len() + packet.data@.len()
                <= MAX_DATA_BYTES ==> r is Ok && final(self).written() == old(self).written()
                + packet.data@,
    {
        if self.finalized {
            return Err(MediaError::UseAfterFinalize);
        }
        if packet.data.len() > (MAX_DATA_BYTES - self.data_bytes) as usize {
            return Err(MediaError::InvalidFormat);
        }
        append(&mut self.out, &packet.data);
        self.data_bytes = self.data_bytes + packet.data.len() as u32;
        self.data = Ghost(self.data@ + packet.data@);
        proof {
            assert(self.out@ =~= wav_header(self.format, 0) + self.data@);
        }
        Ok(())
    }

    /// Fills in the RIFF and data sizes. A second call fails.
    pub fn finalize(&mut self) -> (r: Result<(), MediaError>)
        requires
            old(self).wf(),
        ensures
            final(self).wf(),
            final(self).format_view() == old(self).format_view(),
            final(self).written() == old(self).written(),
            final(self).is_finalized(),
            old(self).is_finalized() ==> r == Err::<(), MediaError>(MediaError::UseAfterFinalize),
            !old(self).is_finalized() ==> r is Ok,
    {
        if self.finalized {
            return Err(MediaError::UseAfterFinalize);
        }
        let header = header_bytes(self.format, self.data_bytes);
        let ghost old_out = self.out@;
        proof {
            lemma_header_len(self.format, self.data_bytes as nat);
            lemma_header_len(self.format, 0);
        }
        let mut i: usize = 0;
        while i < 44
            invariant
                self.format.is_legal(),
                self.format == old(self).format,
                self.data == old(self).data,
                self.data_bytes == old(self).data_bytes,
                self.data_bytes == self.data@.len(),
                self.data_bytes <= MAX_DATA_BYTES,
                !self.finalized,
                old_out == wav_header(self.format, 0) + self.data@,
                header@ == wav_header(self.format, self.data_bytes as nat),
                header@.len() == 44,
                i <= 44,
                self.out@.len() == old_out.len(),
                old_out.len() >= 44,
                forall|k: int| 0 <= k < i ==> #[trigger] self.out@[k] == header@[k],
                forall|k: int| i <= k < old_out.len() ==> #[trigger] self.out@[k] == old_out[k],
            decreases 44 - i,
        {
            self.out.set(i, header[i]);
            i += 1;
        }
        self.finalized = true;
        proof {
            assert(self.out@ =~= wav_header(self.format, self.data@.len()) + self.data@);
        }
        Ok(())
    }

    /// The file written so far.
    pub fn output_bytes(&self) -> (r: &Vec<u8>)
        ensures
            r@ == self.output(),
    {
        &self.out
    }

    pub fn into_output(self) -> (r: Vec<u8>)
        ensures
            r@ == self.output(),
    {
        self.out
    }
}

proof fn lemma_le2(v: nat)
    requires
        v < 0x1_0000,
    ensures
        le_bytes(v, 2).len() == 2,
        le_bytes(v, 2)[0] + 256 * le_bytes(v, 2)[1] == v,
{
    reveal_with_fuel(le_bytes, 3);
    assert(le_bytes(v, 2) =~= seq![(v % 256) as u8, ((v / 256) % 256) as u8]);
}

proof fn lemma_le4(v: nat)
    requires
        v < 0x1_0000_0000,
    ensures
        le_bytes(v, 4).len() == 4,
        le_bytes(v, 4)[0] + 256 * le_bytes(v, 4)[1] + 65536 * (le_bytes(v, 4)[2] + 256 * le_bytes(
            v,
            4,
        )[3]) == v,
{
    reveal_with_fuel(le_bytes, 5);
    let b = le_bytes(v, 4);
    assert(b =~= seq![
        (v % 256) as u8,
        ((v / 256) % 256) as u8,
        ((v / 256 / 256) % 256) as u8,
        ((v / 256 / 256 / 256) % 256) as u8,
    ]);
}

/// The canonical header followed by its data is read back as the format it
/// was written from, with the data chunk right after the header: a written
/// file opens again as the same stream.
pub proof fn lemma_written_header_parses(f: WavFormat, data: Seq<u8>)
    requires
        f.is_legal(),
        data.len() <= MAX_DATA_BYTES,
    ensures
        wav_layout(wav_header(f, data.len()) + data) == Ok::<WavLayout, MediaError>(
            WavLayout { format: f, data_start: 44, data_len: data.len() as u32 },
        ),
{
    let n = data.len();
    let h = wav_header(f, n);
    let b = h + data;
    lemma_header_len(f, n);
    lemma_le4(36 + n);
    lemma_le4(16);
    lemma_le2(1);
    lemma_le2(f.channels as nat);
    lemma_le4(f.sample_rate as nat);
    lemma_le4(n);
    lemma_le_bytes_len((f.sample_rate * frame_bytes(f)) as nat, 4);
    lemma_le_bytes_len(frame_bytes(f), 2);
    lemma_le2(f.bit_depth as nat);
    let p0 = riff_tag();
    let p1 = le_bytes(36 + n, 4);
    let p2 = wave_tag();
    let p3 = fmt_tag();
    let p4 = le_bytes(16, 4);
    let p5 = le_bytes(1, 2);
    let p6 = le_bytes(f.channels as nat, 2);
    let p7 = le_bytes(f.sample_rate as nat, 4);
    let p8 = le_bytes((f.sample_rate * frame_bytes(f)) as nat, 4);
    let p9 = le_bytes(frame_bytes(f), 2);
    let p10 = le_bytes(f.bit_depth as nat, 2);
    let p11 = data_tag();
    let p12 = le_bytes(n, 4);
    assert(b =~= p0 + p1 + p2 + p3 + p4 + p5 + p6 + p7 + p8 + p9 + p10 + p11 + p12 + data);
    assert(b.subrange(0, 4) =~= p0);
    assert(b.subrange(8, 12) =~= p2);
    assert(b.subrange(12, 16) =~= p3);
    assert(b.subrange(36, 40) =~= p11);
    assert(b.subrange(12, 16) != data_tag()) by {
        assert(b.subrange(12, 16)[0] != data_tag()[0]);
    }
    assert(u32_at(b, 16) == 16);
    assert(u16_at(b, 20) == 1);
    assert(u16_at(b, 22) == f.channels);
    assert(u32_at(b, 24) == f.sample_rate);
    assert(u16_at(b, 34) == f.bit_depth);
    assert(u32_at(b, 40) == n);
    assert(fmt_chunk(b, 20, 16) == Ok::<WavFormat, MediaError>(f));
    assert(scan_chunks(b, 36, Some(f)) == Ok::<WavLayout, MediaError>(
        WavLayout { format: f, data_start: 44, data_len: n as u32 },
    ));
}

} // verus!
