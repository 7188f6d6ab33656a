//! The YUV4MPEG2 container: its header grammar, the frame loop, and the
//! writer that rebuilds the header from the tags that were present.

use crate::media::{MediaError, Timebase};
use crate::wav::concat_all;
use crate::packet::Packet;
use vstd::prelude::*;

verus! {

/// How the fields of a picture are ordered (`I` tag).
#[derive(Debug, Clone, Copy, PartialEq, Eq, Structural)]
pub enum Interlacing {
    Progressive,
    TopFirst,
    BottomFirst,
    Mixed,
    Unknown,
}

/// The chroma layout (`C` tag).
#[derive(Debug, Clone, Copy, PartialEq, Eq, Structural)]
pub enum Colorspace {
    C420,
    C420Jpeg,
    C420Paldv,
    C420Mpeg2,
    C422,
    C444,
    Mono,
}

/// Two numbers written `num:den` in a header.
#[derive(Debug, Clone, Copy, PartialEq, Eq, Structural)]
pub struct Ratio {
    pub num: u32,
    pub den: u32,
}

/// The stream description of a YUV4MPEG2 header. Optional tags are `None`
/// when the header did not carry them.
#[derive(Debug, Clone, Copy, PartialEq, Eq, Structural)]
pub struct Y4mFormat {
    pub width: u32,
    pub height: u32,
    pub framerate_num: u32,
    pub framerate_den: u32,
    pub interlacing: Option<Interlacing>,
    pub aspect_ratio: Option<Ratio>,
    pub colorspace: Option<Colorspace>,
}

/// A header with no tags read yet.
pub open spec fn empty_format() -> Y4mFormat {
    Y4mFormat {
        width: 0,
        height: 0,
        framerate_num: 0,
        framerate_den: 0,
        interlacing: None,
        aspect_ratio: None,
        colorspace: None,
    }
}

pub open spec fn is_digit(c: u8) -> bool {
    0x30 <= c && c <= 0x39
}

/// The number written by the decimal digits `d`.
pub open spec fn digits_value(d: Seq<u8>) -> nat
    decreases d.len(),
{
    if d.len() == 0 {
        0
    } else {
        10 * digits_value(d.drop_last()) + (d.last() - 0x30) as nat
    }
}

/// A decimal number of at least one digit that fits in 32 bits.
pub open spec fn parse_number(d: Seq<u8>) -> Option<u32> {
    if d.len() > 0 && (forall|i: int| 0 <= i < d.len() ==> is_digit(#[trigger] d[i]))
        && digits_value(d) <= u32::MAX {
        Some(digits_value(d) as u32)
    } else {
        None
    }
}

/// The offset of the first `:` in `t` at or after `i`, or `t.len()`.
pub open spec fn colon_at(t: Seq<u8>, i: nat) -> nat
    decreases t.len() - i,
{
    if i >= t.len() {
        t.len()
    } else if t[i as int] == 0x3a {
        i
    } else {
        colon_at(t, i + 1)
    }
}

/// Two numbers written `num:den`.
pub open spec fn parse_ratio(t: Seq<u8>) -> Option<Ratio> {
    let c = colon_at(t, 0);
    if c >= t.len() {
        None
    } else {
        match (parse_number(t.subrange(0, c as int)), parse_number(t.subrange(c + 1 as int, t.len() as int))) {
            (Some(a), Some(b)) => Some(Ratio { num: a, den: b }),
            _ => None,
        }
    }
}

/// The colorspace that a `C` tag names.
pub open spec fn colorspace_named(t: Seq<u8>) -> Option<Colorspace> {
    if t == seq![0x34u8, 0x32, 0x30] {
        Some(Colorspace::C420)
    } else if t == seq![0x34u8, 0x32, 0x30, 0x6a, 0x70, 0x65, 0x67] {
        Some(Colorspace::C420Jpeg)
    } else if t == seq![0x34u8, 0x32, 0x30, 0x70, 0x61, 0x6c, 0x64, 0x76] {
        Some(Colorspace::C420Paldv)
    } else if t == seq![0x34u8, 0x32, 0x30, 0x6d, 0x70, 0x65, 0x67, 0x32] {
        Some(Colorspace::C420Mpeg2)
    } else if t == seq![0x34u8, 0x32, 0x32] {
        Some(Colorspace::C422)
    } else if t == seq![0x34u8, 0x34, 0x34] {
        Some(Colorspace::C444)
    } else if t == seq![0x6du8, 0x6f, 0x6e, 0x6f] {
        Some(Colorspace::Mono)
    } else {
        None
    }
}

/// The interlacing that an `I` tag names.
pub open spec fn interlacing_named(t: Seq<u8>) -> Option<Interlacing> {
    if t == seq![0x70u8] {
        Some(Interlacing::Progressive)
    } else if t == seq![0x74u8] {
        Some(Interlacing::TopFirst)
    } else if t == seq![0x62u8] {
        Some(Interlacing::BottomFirst)
    } else if t == seq![0x6du8] {
        Some(Interlacing::Mixed)
    } else if t == seq![0x3fu8] {
        Some(Interlacing::Unknown)
    } else {
        None
    }
}

/// What one header token does to the format read so far: `W`, `H`, `F`,
/// `I`, `A` and `C` set their field; any other token is ignored.
pub open spec fn apply_tag(f: Y4mFormat, t: Seq<u8>) -> Result<Y4mFormat, MediaError> {
    if t.len() == 0 {
        Ok(f)
    } else {
        let rest = t.drop_first();
        if t[0] == 0x57 {
            match parse_number(rest) {
                Some(v) => Ok(Y4mFormat { width: v, ..f }),
                None => Err(MediaError::InvalidFormat),
            }
        } else if t[0] == 0x48 {
            match parse_number(rest) {
                Some(v) => Ok(Y4mFormat { height: v, ..f }),
                None => Err(MediaError::InvalidFormat),
            }
        } else if t[0] == 0x46 {
            match parse_ratio(rest) {
                Some(r) => Ok(Y4mFormat { framerate_num: r.num, framerate_den: r.den, ..f }),
                None => Err(MediaError::InvalidFormat),
            }
        } else if t[0] == 0x41 {
            match parse_ratio(rest) {
                Some(r) => Ok(Y4mFormat { aspect_ratio: Some(r), ..f }),
                None => Err(MediaError::InvalidFormat),
            }
        } else if t[0] == 0x49 {
            match interlacing_named(rest) {
                Some(i) => Ok(Y4mFormat { interlacing: Some(i), ..f }),
                None => Err(MediaError::InvalidFormat),
            }
        } else if t[0] == 0x43 {
            match colorspace_named(rest) {
                Some(c) => Ok(Y4mFormat { colorspace: Some(c), ..f }),
                None => Err(MediaError::UnsupportedCodec),
            }
        } else {
            Ok(f)
        }
    }
}

/// The space-separated tokens of `s` applied in order, where `cur` is a
/// token already begun before `s`; the first failing token decides.
pub open spec fn apply_tags_from(f: Y4mFormat, s: Seq<u8>, cur: Seq<u8>) -> Result<Y4mFormat, MediaError>
    decreases s.len(),
{
    if s.len() == 0 {
        apply_tag(f, cur)
    } else if s[0] == 0x20 {
        match apply_tag(f, cur) {
            Ok(g) => apply_tags_from(g, s.drop_first(), Seq::empty()),
            Err(e) => Err(e),
        }
    } else {
        apply_tags_from(f, s.drop_first(), cur.push(s[0]))
    }
}

fn number_of(t: &Vec<u8>, start: usize, end: usize) -> (r: Option<u32>)
    requires
        start <= end <= t@.len(),
    ensures
        r == parse_number(t@.subrange(start as int, end as int)),
{
    let ghost d = t@.subrange(start as int, end as int);
    if start == end {
        return None;
    }
    let mut value: u64 = 0;
    let mut i: usize = start;
    while i < end
        invariant
            start <= i <= end <= t@.len(),
            d == t@.subrange(start as int, end as int),
            forall|k: int| start <= k < i ==> is_digit(#[trigger] t@[k]),
            value == digits_value(t@.subrange(start as int, i as int)),
            value <= u32::MAX,
        decreases end - i,
    {
        let c = t[i];
        proof {
            assert(t@.subrange(start as int, i + 1).drop_last() =~= t@.subrange(start as int, i as int));
        }
        if c < 0x30 || c > 0x39 {
            proof {
                assert(!is_digit(d[i - start]));
            }
            return None;
        }
        value = value * 10 + (c - 0x30) as u64;
        if value > 0xffff_ffff {
            proof {
                if forall|k: int| start <= k < end ==> is_digit(#[trigger] t@[k]) {
                    lemma_digits_grow(t@, start as int, (i + 1) as int, end as int);
                } else {
                    let k = choose|k: int| start <= k < end && !is_digit(#[trigger] t@[k]);
                    assert(d[k - start] == t@[k]);
                    assert(!is_digit(d[k - start]));
                }
            }
            return None;
        }
        i += 1;
    }
    proof {
        assert(t@.subrange(start as int, end as int) =~= d);
    }
    Some(value as u32)
}

proof fn lemma_digits_grow(t: Seq<u8>, s: int, i: int, e: int)
    requires
        0 <= s <= i <= e <= t.len(),
        forall|k: int| s <= k < e ==> is_digit(#[trigger] t[k]),
    ensures
        digits_value(t.subrange(s, e)) >= digits_value(t.subrange(s, i)),
    decreases e - i,
{
    if i < e {
        lemma_digits_grow(t, s, i + 1, e);
        assert(t.subrange(s, i + 1).drop_last() =~= t.subrange(s, i));
    }
}

fn colon_in(t: &Vec<u8>, start: usize, end: usize) -> (r: usize)
    requires
        start <= end <= t@.len(),
    ensures
        start + colon_at(t@.subrange(start as int, end as int), 0) == r,
{
    let ghost d = t@.subrange(start as int, end as int);
    let mut i: usize = start;
    while i < end
        invariant
            start <= i <= end <= t@.len(),
            d == t@.subrange(start as int, end as int),
            colon_at(d, 0) == colon_at(d, (i - start) as nat),
        decreases end - i,
    {
        if t[i] == 0x3a {
            return i;
        }
        i += 1;
    }
    i
}

fn ratio_of(t: &Vec<u8>, start: usize, end: usize) -> (r: Option<Ratio>)
    requires
        start <= end <= t@.len(),
    ensures
        r == parse_ratio(t@.subrange(start as int, end as int)),
{
    let ghost d = t@.subrange(start as int, end as int);
    let c = colon_in(t, start, end);
    proof {
        lemma_colon_bound(d, 0);
    }
    if c >= end {
        return None;
    }
    proof {
        assert(d.subrange(0, (c - start) as int) =~= t@.subrange(start as int, c as int));
        assert(d.subrange((c - start) + 1, d.len() as int) =~= t@.subrange(c + 1, end as int));
    }
    match (number_of(t, start, c), number_of(t, c + 1, end)) {
        (Some(a), Some(b)) => Some(Ratio { num: a, den: b }),
        _ => None,
    }
}

proof fn lemma_colon_bound(t: Seq<u8>, i: nat)
    ensures
        colon_at(t, i) <= t.len(),
        colon_at(t, i) < t.len() ==> t[colon_at(t, i) as int] == 0x3a,
    decreases t.len() - i,
{
    if i < t.len() && t[i as int] != 0x3a {
        lemma_colon_bound(t, i + 1);
    }
}

fn same_bytes(t: &Vec<u8>, start: usize, end: usize, w: &[u8]) -> (r: bool)
    requires
        start <= end <= t@.len(),
    ensures
        r == (t@.subrange(start as int, end as int) == w@),
{
    if end - start != w.len() {
        return false;
    }
    let mut i: usize = 0;
    while i < w.len()
        invariant
            end - start == w@.len(),
            start <= end <= t@.len(),
            i <= w@.len(),
            forall|k: int| 0 <= k < i ==> t@[start + k] == w@[k],
        decreases w@.len() - i,
    {
        if t[start + i] != w[i] {
            proof {
                assert(t@.subrange(start as int, end as int)[i as int] != w@[i as int]);
            }
            return false;
        }
        i += 1;
    }
    proof {
        assert(t@.subrange(start as int, end as int) =~= w@);
    }
    true
}

fn apply_tag_at(f: Y4mFormat, t: &Vec<u8>, start: usize, end: usize) -> (r: Result<Y4mFormat, MediaError>)
    requires
        start <= end <= t@.len(),
    ensures
        r == apply_tag(f, t@.subrange(start as int, end as int)),
{
    if start == end {
        return Ok(f);
    }
    let ghost tok = t@.subrange(start as int, end as int);
    proof {
        assert(tok.drop_first() =~= t@.subrange(start + 1, end as int));
        assert(tok[0] == t@[start as int]);
    }
    let w1: [u8; 1] = [0x70];
    let w2: [u8; 1] = [0x74];
    let w3: [u8; 1] = [0x62];
    let w4: [u8; 1] = [0x6d];
    let w5: [u8; 1] = [0x3f];
    let w6: [u8; 3] = [0x34, 0x32, 0x30];
    let w7: [u8; 7] = [0x34, 0x32, 0x30, 0x6a, 0x70, 0x65, 0x67];
    let w8: [u8; 8] = [0x34, 0x32, 0x30, 0x70, 0x61, 0x6c, 0x64, 0x76];
    let w9: [u8; 8] = [0x34, 0x32, 0x30, 0x6d, 0x70, 0x65, 0x67, 0x32];
    let w10: [u8; 3] = [0x34, 0x32, 0x32];
    let w11: [u8; 3] = [0x34, 0x34, 0x34];
    let w12: [u8; 4] = [0x6d, 0x6f, 0x6e, 0x6f];
    proof {
        assert(w1@ =~= seq![0x70u8]);
        assert(w2@ =~= seq![0x74u8]);
        assert(w3@ =~= seq![0x62u8]);
        assert(w4@ =~= seq![0x6du8]);
        assert(w5@ =~= seq![0x3fu8]);
        assert(w6@ =~= seq![0x34u8, 0x32, 0x30]);
        assert(w7@ =~= seq![0x34u8, 0x32, 0x30, 0x6a, 0x70, 0x65, 0x67]);
        assert(w8@ =~= seq![0x34u8, 0x32, 0x30, 0x70, 0x61, 0x6c, 0x64, 0x76]);
        assert(w9@ =~= seq![0x34u8, 0x32, 0x30, 0x6d, 0x70, 0x65, 0x67, 0x32]);
        assert(w10@ =~= seq![0x34u8, 0x32, 0x32]);
        assert(w11@ =~= seq![0x34u8, 0x34, 0x34]);
        assert(w12@ =~= seq![0x6du8, 0x6f, 0x6e, 0x6f]);
    }
    let c = t[start];
    let s = start + 1;
    if c == 0x57 {
        match number_of(t, s, end) {
            Some(v) => Ok(Y4mFormat { width: v, ..f }),
            None => Err(MediaError::InvalidFormat),
        }
    } else if c == 0x48 {
        match number_of(t, s, end) {
            Some(v) => Ok(Y4mFormat { height: v, ..f }),
            None => Err(MediaError::InvalidFormat),
        }
    } else if c == 0x46 {
        match ratio_of(t, s, end) {
            Some(r) => Ok(Y4mFormat { framerate_num: r.num, framerate_den: r.den, ..f }),
            None => Err(MediaError::InvalidFormat),
        }
    } else if c == 0x41 {
        match ratio_of(t, s, end) {
            Some(r) => Ok(Y4mFormat { aspect_ratio: Some(r), ..f }),
            None => Err(MediaError::InvalidFormat),
        }
    } else if c == 0x49 {
        let i = if same_bytes(t, s, end, &w1) {
            Some(Interlacing::Progressive)
        } else if same_bytes(t, s, end, &w2) {
            Some(Interlacing::TopFirst)
        } else if same_bytes(t, s, end, &w3) {
            Some(Interlacing::BottomFirst)
        } else if same_bytes(t, s, end, &w4) {
            Some(Interlacing::Mixed)
        } else if same_bytes(t, s, end, &w5) {
            Some(Interlacing::Unknown)
        } else {
            None
        };
        match i {
            Some(i) => Ok(Y4mFormat { interlacing: Some(i), ..f }),
            None => Err(MediaError::InvalidFormat),
        }
    } else if c == 0x43 {
        let cs = if same_bytes(t, s, end, &w6) {
            Some(Colorspace::C420)
        } else if same_bytes(t, s, end, &w7) {
            Some(Colorspace::C420Jpeg)
        } else if same_bytes(t, s, end, &w8) {
            Some(Colorspace::C420Paldv)
        } else if same_bytes(t, s, end, &w9) {
            Some(Colorspace::C420Mpeg2)
        } else if same_bytes(t, s, end, &w10) {
            Some(Colorspace::C422)
        } else if same_bytes(t, s, end, &w11) {
            Some(Colorspace::C444)
        } else if same_bytes(t, s, end, &w12) {
            Some(Colorspace::Mono)
        } else {
            None
        };
        match cs {
            Some(c) => Ok(Y4mFormat { colorspace: Some(c), ..f }),
            None => Err(MediaError::UnsupportedCodec),
        }
    } else {
        Ok(f)
    }
}

/// `YUV4MPEG2 ` in ASCII: the start of every stream.
pub open spec fn y4m_signature() -> Seq<u8> {
    seq![0x59u8, 0x55, 0x56, 0x34, 0x4d, 0x50, 0x45, 0x47, 0x32, 0x20]
}

/// `FRAME` in ASCII: the start of every frame.
pub open spec fn frame_magic() -> Seq<u8> {
    seq![0x46u8, 0x52, 0x41, 0x4d, 0x45]
}

/// The offset of the first line feed in `b` at or after `i`, or `b.len()`.
pub open spec fn line_end(b: Seq<u8>, i: nat) -> nat
    decreases b.len() - i,
{
    if i >= b.len() {
        b.len()
    } else if b[i as int] == 0x0a {
        i
    } else {
        line_end(b, i + 1)
    }
}

/// Width, height and both frame-rate terms are present and non-zero.
pub open spec fn complete(f: Y4mFormat) -> bool {
    f.width > 0 && f.height > 0 && f.framerate_num > 0 && f.framerate_den > 0
}

/// The format of a stream's header, and where its first frame starts.
pub open spec fn y4m_header(b: Seq<u8>) -> Result<(Y4mFormat, nat), MediaError> {
    if b.len() < 10 || b.subrange(0, 10) != y4m_signature() {
        Err(MediaError::BadMagic)
    } else {
        let e = line_end(b, 10);
        if e >= b.len() {
            Err(MediaError::UnexpectedEof)
        } else {
            match apply_tags_from(empty_format(), b.subrange(10, e as int), Seq::empty()) {
                Ok(f) => if complete(f) {
                    Ok((f, e + 1))
                } else {
                    Err(MediaError::InvalidFormat)
                },
                Err(x) => Err(x),
            }
        }
    }
}

proof fn lemma_line_end_bound(b: Seq<u8>, i: nat)
    ensures
        line_end(b, i) <= b.len(),
        i <= b.len() ==> i <= line_end(b, i),
        line_end(b, i) < b.len() ==> b[line_end(b, i) as int] == 0x0a,
    decreases b.len() - i,
{
    if i < b.len() && b[i as int] != 0x0a {
        lemma_line_end_bound(b, i + 1);
    }
}

fn find_line_end(b: &Vec<u8>, from: usize) -> (r: usize)
    requires
        from <= b@.len(),
    ensures
        r == line_end(b@, from as nat),
{
    let mut i = from;
    while i < b.len()
        invariant
            from <= i <= b@.len(),
            line_end(b@, from as nat) == line_end(b@, i as nat),
        decreases b@.len() - i,
    {
        if b[i] == 0x0a {
            return i;
        }
        i += 1;
    }
    i
}

/// Reads the header of a YUV4MPEG2 stream.
pub fn parse_y4m_header(b: &Vec<u8>) -> (r: Result<(Y4mFormat, usize), MediaError>)
    ensures
        match y4m_header(b@) {
            Ok((f, p)) => r is Ok && r->Ok_0.0 == f && r->Ok_0.1 == p,
            Err(e) => r == Err::<(Y4mFormat, usize), MediaError>(e),
        },
{
    let sig: [u8; 10] = [0x59, 0x55, 0x56, 0x34, 0x4d, 0x50, 0x45, 0x47, 0x32, 0x20];
    proof {
        assert(sig@ =~= y4m_signature());
    }
    if b.len() < 10 || !same_bytes(b, 0, 10, &sig) {
        return Err(MediaError::BadMagic);
    }
    let e = find_line_end(b, 10);
    proof {
        lemma_line_end_bound(b@, 10);
    }
    if e >= b.len() {
        return Err(MediaError::UnexpectedEof);
    }
    let ghost line = b@.subrange(10, e as int);
    let mut f = Y4mFormat {
        width: 0,
        height: 0,
        framerate_num: 0,
        framerate_den: 0,
        interlacing: None,
        aspect_ratio: None,
        colorspace: None,
    };
    let mut tok: usize = 10;
    let mut i: usize = 10;
    proof {
        assert(b@.subrange(10, 10) =~= Seq::<u8>::empty());
    }
    while i < e
        invariant
            10 <= tok <= i <= e < b@.len(),
            e == line_end(b@, 10),
            b@.subrange(0, 10) == y4m_signature(),
            line == b@.subrange(10, e as int),
            apply_tags_from(empty_format(), line, Seq::empty()) == apply_tags_from(
                f,
                b@.subrange(i as int, e as int),
                b@.subrange(tok as int, i as int),
            ),
        decreases e - i,
    {
        let ghost rest = b@.subrange(i as int, e as int);
        proof {
            assert(rest.drop_first() =~= b@.subrange(i + 1, e as int));
            assert(rest[0] == b@[i as int]);
        }
        if b[i] == 0x20 {
            match apply_tag_at(f, b, tok, i) {
                Ok(g) => {
                    f = g;
                },
                Err(x) => {
                    proof {
                        assert(apply_tags_from(f, rest, b@.subrange(tok as int, i as int)) == Err::<
                            Y4mFormat,
                            MediaError,
                        >(x));
                        assert(y4m_header(b@) == Err::<(Y4mFormat, nat), MediaError>(x));
                    }
                    return Err(x);
                },
            }
            tok = i + 1;
            proof {
                assert(b@.subrange(tok as int, i + 1) =~= Seq::<u8>::empty());
            }
        } else {
            proof {
                assert(b@.subrange(tok as int, i as int).push(b@[i as int]) =~= b@.subrange(
                    tok as int,
                    i + 1,
                ));
            }
        }
        i += 1;
    }
    proof {
        assert(b@.subrange(e as int, e as int) =~= Seq::<u8>::empty());
    }
    let g = match apply_tag_at(f, b, tok, e) {
        Ok(g) => g,
        Err(x) => return Err(x),
    };
    if g.width == 0 || g.height == 0 || g.framerate_num == 0 || g.framerate_den == 0 {
        return Err(MediaError::InvalidFormat);
    }
    Ok((g, e + 1))
}

/// Bytes of one picture: a full-size luma plane and two chroma planes
/// sized by the subsampling (4:2:0 unless the header says otherwise).
pub open spec fn picture_bytes(f: Y4mFormat) -> nat {
    let w = f.width as nat;
    let h = f.height as nat;
    match f.colorspace {
        Some(Colorspace::C422) => w * h + 2 * ((w / 2) * h),
        Some(Colorspace::C444) => 3 * (w * h),
        Some(Colorspace::Mono) => w * h,
        _ => w * h + 2 * ((w / 2) * (h / 2)),
    }
}

/// The sizes of the planes of one picture, luma first.
pub open spec fn plane_sizes(f: Y4mFormat) -> Seq<nat> {
    let w = f.width as nat;
    let h = f.height as nat;
    match f.colorspace {
        Some(Colorspace::C422) => seq![w * h, (w / 2) * h, (w / 2) * h],
        Some(Colorspace::C444) => seq![w * h, w * h, w * h],
        Some(Colorspace::Mono) => seq![w * h],
        _ => seq![w * h, (w / 2) * (h / 2), (w / 2) * (h / 2)],
    }
}

/// The time base of a stream: one tick per frame.
pub open spec fn frame_timebase(f: Y4mFormat) -> Timebase {
    Timebase { num: f.framerate_den as i64, den: f.framerate_num as i64 }
}

pub(crate) fn picture_size(f: &Y4mFormat) -> (r: Option<usize>)
    ensures
        picture_bytes(*f) <= usize::MAX ==> r == Some(picture_bytes(*f) as usize),
        picture_bytes(*f) > usize::MAX ==> r is None,
{
    let w = f.width as u128;
    let h = f.height as u128;
    proof {
        assert(w * h <= 0xffff_ffff * 0xffff_ffff) by (nonlinear_arith)
            requires
                w <= 0xffff_ffff,
                h <= 0xffff_ffff,
        ;
        assert((w / 2) * h <= w * h && (w / 2) * (h / 2) <= w * h) by (nonlinear_arith)
            requires
                w >= 0,
                h >= 0,
        ;
    }
    let luma = w * h;
    let total: u128 = match f.colorspace {
        Some(Colorspace::C422) => luma + 2 * ((w / 2) * h),
        Some(Colorspace::C444) => 3 * luma,
        Some(Colorspace::Mono) => luma,
        _ => luma + 2 * ((w / 2) * (h / 2)),
    };
    if total > usize::MAX as u128 {
        None
    } else {
        Some(total as usize)
    }
}

/// A demuxer for YUV4MPEG2 streams held in memory: one packet per frame.
pub struct Y4mReader {
    bytes: Vec<u8>,
    format: Y4mFormat,
    frame_size: usize,
    pos: usize,
    frames: u64,
}

impl Y4mReader {
    pub closed spec fn file(&self) -> Seq<u8> {
        self.bytes@
    }

    pub closed spec fn format_view(&self) -> Y4mFormat {
        self.format
    }

    /// Offset of the next frame.
    pub closed spec fn position(&self) -> nat {
        self.pos as nat
    }

    /// Frames handed out so far.
    pub closed spec fn frames_read(&self) -> nat {
        self.frames as nat
    }

    pub closed spec fn wf(&self) -> bool {
        &&& self.frame_size == picture_bytes(self.format)
        &&& self.pos <= self.bytes@.len()
        &&& self.frames * 6 <= self.pos
        &&& complete(self.format)
    }

    /// Opens a stream; a picture too large to address is refused.
    pub fn new(data: Vec<u8>) -> (r: Result<Y4mReader, MediaError>)
        ensures
            match y4m_header(data@) {
                Ok((f, p)) => if picture_bytes(f) <= usize::MAX {
                    r is Ok && r->Ok_0.wf() && r->Ok_0.file() == data@ && r->Ok_0.format_view() == f
                        && r->Ok_0.position() == p && r->Ok_0.frames_read() == 0
                } else {
                    r == Err::<Y4mReader, MediaError>(MediaError::InvalidFormat)
                },
                Err(e) => r == Err::<Y4mReader, MediaError>(e),
            },
    {
        let (format, pos) = match parse_y4m_header(&data) {
            Ok(x) => x,
            Err(e) => return Err(e),
        };
        proof {
            lemma_line_end_bound(data@, 10);
        }
        let frame_size = match picture_size(&format) {
            Some(n) => n,
            None => return Err(MediaError::InvalidFormat),
        };
        proof {
            assert(pos <= data@.len());
            assert(complete(format));
        }
        Ok(Y4mReader { bytes: data, format, frame_size, pos, frames: 0 })
    }

    pub fn format(&self) -> (r: Y4mFormat)
        ensures
            r == self.format_view(),
    {
        self.format
    }

    pub fn stream_count(&self) -> (r: usize)
        ensures
            r == 1,
    {
        1
    }

    /// Hands out the next frame's picture bytes, stamped with its number.
    /// Ends with `None` exactly at the end of the data; a frame that does not
    /// start with `FRAME` is refused, and one cut short is `UnexpectedEof`.
    pub fn read_packet(&mut self) -> (r: Result<Option<Packet>, MediaError>)
        requires
            old(self).wf(),
        ensures
            final(self).wf(),
            final(self).file() == old(self).file(),
            final(self).format_view() == old(self).format_view(),
            ({
                let b = old(self).file();
                let p = old(self).position();
                let size = picture_bytes(old(self).format_view());
                let e = line_end(b, p + 5);
                if p == b.len() {
                    r == Ok::<Option<Packet>, MediaError>(None) && *final(self) == *old(self)
                } else if b.len() - p < 5 {
                    r == Err::<Option<Packet>, MediaError>(MediaError::UnexpectedEof) && *final(self) == *old(self)
                } else if b.subrange(p as int, p + 5 as int) != frame_magic() {
                    r == Err::<Option<Packet>, MediaError>(MediaError::InvalidFormat) && *final(self) == *old(self)
                } else if e >= b.len() || b.len() - (e + 1) < size {
                    r == Err::<Option<Packet>, MediaError>(MediaError::UnexpectedEof) && *final(self) == *old(self)
                } else {
                    &&& r is Ok
                    &&& r->Ok_0 is Some
                    &&& r->Ok_0->Some_0.data@ == b.subrange(e + 1 as int, e + 1 + size as int)
                    &&& r->Ok_0->Some_0.pts == old(self).frames_read()
                    &&& r->Ok_0->Some_0.timebase == frame_timebase(old(self).format_view())
                    &&& r->Ok_0->Some_0.stream_index == 0
                    &&& r->Ok_0->Some_0.keyframe
                    &&& final(self).position() == e + 1 + size
                    &&& final(self).frames_read() == old(self).frames_read() + 1
                }
            }),
    {
        let len = self.bytes.len();
        if self.pos == len {
            return Ok(None);
        }
        if len - self.pos < 5 {
            return Err(MediaError::UnexpectedEof);
        }
        let magic: [u8; 5] = [0x46, 0x52, 0x41, 0x4d, 0x45];
        proof {
            assert(magic@ =~= frame_magic());
        }
        if !same_bytes(&self.bytes, self.pos, self.pos + 5, &magic) {
            return Err(MediaError::InvalidFormat);
        }
        let e = find_line_end(&self.bytes, self.pos + 5);
        proof {
            lemma_line_end_bound(self.bytes@, (self.pos + 5) as nat);
        }
        if e >= len || len - (e + 1) < self.frame_size {
            return Err(MediaError::UnexpectedEof);
        }
        let body = e + 1;
        let end = body + self.frame_size;
        let mut out: Vec<u8> = Vec::new();
        let mut i: usize = body;
        while i < end
            invariant
                body <= i <= end <= self.bytes@.len(),
                out@ =~= self.bytes@.subrange(body as int, i as int),
            decreases end - i,
        {
            out.push(self.bytes[i]);
            i += 1;
        }
        proof {
            assert(self.frames * 6 + 6 <= end);
        }
        let pts = self.frames as i64;
        let timebase = Timebase { num: self.format.framerate_den as i64, den: self.format.framerate_num as i64 };
        self.pos = end;
        self.frames = self.frames + 1;
        Ok(Some(Packet::new(out, pts, timebase)))
    }
}

/// The decimal digits of `v` in ASCII.
pub open spec fn dec_bytes(v: nat) -> Seq<u8>
    decreases v,
{
    if v < 10 {
        seq![(0x30 + v) as u8]
    } else {
        dec_bytes(v / 10).push((0x30 + v % 10) as u8)
    }
}

pub open spec fn interlacing_byte(i: Interlacing) -> u8 {
    match i {
        Interlacing::Progressive => 0x70,
        Interlacing::TopFirst => 0x74,
        Interlacing::BottomFirst => 0x62,
        Interlacing::Mixed => 0x6d,
        Interlacing::Unknown => 0x3f,
    }
}

pub open spec fn colorspace_name(c: Colorspace) -> Seq<u8> {
    match c {
        Colorspace::C420 => seq![0x34u8, 0x32, 0x30],
        Colorspace::C420Jpeg => seq![0x34u8, 0x32, 0x30, 0x6a, 0x70, 0x65, 0x67],
        Colorspace::C420Paldv => seq![0x34u8, 0x32, 0x30, 0x70, 0x61, 0x6c, 0x64, 0x76],
        Colorspace::C420Mpeg2 => seq![0x34u8, 0x32, 0x30, 0x6d, 0x70, 0x65, 0x67, 0x32],
        Colorspace::C422 => seq![0x34u8, 0x32, 0x32],
        Colorspace::C444 => seq![0x34u8, 0x34, 0x34],
        Colorspace::Mono => seq![0x6du8, 0x6f, 0x6e, 0x6f],
    }
}

/// The `I` tag of a format, if it carries one.
pub open spec fn interlacing_text(f: Y4mFormat) -> Seq<u8> {
    match f.interlacing {
        Some(i) => seq![0x20u8, 0x49, interlacing_byte(i)],
        None => Seq::empty(),
    }
}

/// The `A` tag of a format, if it carries one.
pub open spec fn aspect_text(f: Y4mFormat) -> Seq<u8> {
    match f.aspect_ratio {
        Some(r) => seq![0x20u8, 0x41] + dec_bytes(r.num as nat) + seq![0x3au8] + dec_bytes(r.den as nat),
        None => Seq::empty(),
    }
}

/// The `C` tag of a format, if it carries one.
pub open spec fn colorspace_text(f: Y4mFormat) -> Seq<u8> {
    match f.colorspace {
        Some(c) => seq![0x20u8, 0x43] + colorspace_name(c),
        None => Seq::empty(),
    }
}

/// The signature and the `W`, `H` and `F` tags.
pub open spec fn size_text(f: Y4mFormat) -> Seq<u8> {
    y4m_signature() + seq![0x57u8] + dec_bytes(f.width as nat) + seq![0x20u8, 0x48] + dec_bytes(
        f.height as nat,
    ) + seq![0x20u8, 0x46] + dec_bytes(f.framerate_num as nat) + seq![0x3au8] + dec_bytes(
        f.framerate_den as nat,
    )
}

/// The header line written for a format: `W`, `H` and `F` always, then
/// `I`, `A` and `C` where the format carries them.
pub open spec fn header_text(f: Y4mFormat) -> Seq<u8> {
    size_text(f) + interlacing_text(f) + aspect_text(f) + colorspace_text(f) + seq![0x0au8]
}

fn push_all(out: &mut Vec<u8>, bytes: &[u8])
    ensures
        final(out)@ == old(out)@ + bytes@,
{
    let ghost start = out@;
    let mut i: usize = 0;
    while i < bytes.len()
        invariant
            i <= bytes@.len(),
            out@ =~= start + bytes@.subrange(0, i as int),
        decreases bytes@.len() - i,
    {
        out.push(bytes[i]);
        i += 1;
    }
    proof {
        assert(bytes@.subrange(0, bytes@.len() as int) =~= bytes@);
    }
}

fn push_dec(out: &mut Vec<u8>, v: u32)
    ensures
        final(out)@ == old(out)@ + dec_bytes(v as nat),
    decreases v,
{
    if v < 10 {
        out.push(0x30 + v as u8);
    } else {
        push_dec(out, v / 10);
        out.push(0x30 + (v % 10) as u8);
    }
    proof {
        assert(final(out)@ =~= old(out)@ + dec_bytes(v as nat));
    }
}

fn push_size_text(out: &mut Vec<u8>, f: &Y4mFormat)
    ensures
        final(out)@ == old(out)@ + size_text(*f),
{
    let sig: [u8; 10] = [0x59, 0x55, 0x56, 0x34, 0x4d, 0x50, 0x45, 0x47, 0x32, 0x20];
    proof {
        assert(sig@ =~= y4m_signature());
    }
    push_all(out, &sig);
    out.push(0x57);
    push_dec(out, f.width);
    out.push(0x20);
    out.push(0x48);
    push_dec(out, f.height);
    out.push(0x20);
    out.push(0x46);
    push_dec(out, f.framerate_num);
    out.push(0x3a);
    push_dec(out, f.framerate_den);
    proof {
        assert(final(out)@ =~= old(out)@ + size_text(*f));
    }
}

fn push_interlacing_text(out: &mut Vec<u8>, f: &Y4mFormat)
    ensures
        final(out)@ == old(out)@ + interlacing_text(*f),
{
    match f.interlacing {
        Some(i) => {
            let c: u8 = match i {
                Interlacing::Progressive => 0x70,
                Interlacing::TopFirst => 0x74,
                Interlacing::BottomFirst => 0x62,
                Interlacing::Mixed => 0x6d,
                Interlacing::Unknown => 0x3f,
            };
            out.push(0x20);
            out.push(0x49);
            out.push(c);
        },
        None => {},
    }
    proof {
        assert(final(out)@ =~= old(out)@ + interlacing_text(*f));
    }
}

fn push_aspect_text(out: &mut Vec<u8>, f: &Y4mFormat)
    ensures
        final(out)@ == old(out)@ + aspect_text(*f),
{
    match f.aspect_ratio {
        Some(r) => {
            out.push(0x20);
            out.push(0x41);
            push_dec(out, r.num);
            out.push(0x3a);
            push_dec(out, r.den);
        },
        None => {},
    }
    proof {
        assert(final(out)@ =~= old(out)@ + aspect_text(*f));
    }
}

fn push_colorspace_text(out: &mut Vec<u8>, f: &Y4mFormat)
    ensures
        final(out)@ == old(out)@ + colorspace_text(*f),
{
    match f.colorspace {
        Some(c) => {
            out.push(0x20);
            out.push(0x43);
            let name: Vec<u8> = match c {
                Colorspace::C420 => vec![0x34, 0x32, 0x30],
                Colorspace::C420Jpeg => vec![0x34, 0x32, 0x30, 0x6a, 0x70, 0x65, 0x67],
                Colorspace::C420Paldv => vec![0x34, 0x32, 0x30, 0x70, 0x61, 0x6c, 0x64, 0x76],
                Colorspace::C420Mpeg2 => vec![0x34, 0x32, 0x30, 0x6d, 0x70, 0x65, 0x67, 0x32],
                Colorspace::C422 => vec![0x34, 0x32, 0x32],
                Colorspace::C444 => vec![0x34, 0x34, 0x34],
                Colorspace::Mono => vec![0x6d, 0x6f, 0x6e, 0x6f],
            };
            proof {
                assert(name@ =~= colorspace_name(c));
            }
            push_all(out, name.as_slice());
        },
        None => {},
    }
    proof {
        assert(final(out)@ =~= old(out)@ + colorspace_text(*f));
    }
}

fn header_of(f: &Y4mFormat) -> (r: Vec<u8>)
    ensures
        r@ == header_text(*f),
{
    let mut out: Vec<u8> = Vec::new();
    push_size_text(&mut out, f);
    push_interlacing_text(&mut out, f);
    push_aspect_text(&mut out, f);
    push_colorspace_text(&mut out, f);
    out.push(0x0a);
    proof {
        assert(out@ =~= header_text(*f));
    }
    out
}

/// A muxer that writes a YUV4MPEG2 stream into memory.
pub struct Y4mWriter {
    out: Vec<u8>,
    format: Y4mFormat,
    finalized: bool,
}

impl Y4mWriter {
    pub closed spec fn output(&self) -> Seq<u8> {
        self.out@
    }

    pub closed spec fn format_view(&self) -> Y4mFormat {
        self.format
    }

    pub closed spec fn is_finalized(&self) -> bool {
        self.finalized
    }

    /// Starts a stream with the header of `format`.
    pub fn new(format: Y4mFormat) -> (r: Y4mWriter)
        ensures
            r.output() == header_text(format),
            r.format_view() == format,
            !r.is_finalized(),
    {
        let out = header_of(&format);
        Y4mWriter { out, format, finalized: false }
    }

    /// Appends `FRAME`, a line feed and the packet's bytes.
    pub fn write_packet(&mut self, packet: Packet) -> (r: Result<(), MediaError>)
        ensures
            final(self).format_view() == old(self).format_view(),
            final(self).is_finalized() == old(self).is_finalized(),
            old(self).is_finalized() ==> r == Err::<(), MediaError>(MediaError::UseAfterFinalize)
                && final(self).output() == old(self).output(),
            !old(self).is_finalized() ==> r is Ok && final(self).output() == old(self).output()
                + frame_magic() + seq![0x0au8] + packet.data@,
    {
        if self.finalized {
            return Err(MediaError::UseAfterFinalize);
        }
        let head: [u8; 6] = [0x46, 0x52, 0x41, 0x4d, 0x45, 0x0a];
        proof {
            assert(head@ =~= frame_magic() + seq![0x0au8]);
        }
        push_all(&mut self.out, &head);
        push_all(&mut self.out, packet.data.as_slice());
        proof {
            assert(self.out@ =~= old(self).out@ + frame_magic() + seq![0x0au8] + packet.data@);
        }
        Ok(())
    }

    /// Ends the stream; later writes fail.
    pub fn finalize(&mut self) -> (r: Result<(), MediaError>)
        ensures
            final(self).output() == old(self).output(),
            final(self).format_view() == old(self).format_view(),
            final(self).is_finalized(),
            old(self).is_finalized() ==> r == Err::<(), MediaError>(MediaError::UseAfterFinalize),
            !old(self).is_finalized() ==> r is Ok,
    {
        if self.finalized {
            return Err(MediaError::UseAfterFinalize);
        }
        self.finalized = true;
        Ok(())
    }

    pub fn into_output(self) -> (r: Vec<u8>)
        ensures
            r@ == self.output(),
    {
        self.out
    }
}

} // verus!
