//! Text helpers: hexadecimal renderings of bytes, a parser for them, and a
//! dump in the style of `xxd`.

use vstd::prelude::*;
use crate::media::round_half_even;
use vstd::arithmetic::power2::{lemma2_to64, lemma_pow2_strictly_increases, lemma_pow2_unfold, pow2};
use vstd::bits::lemma_u64_shl_is_mul;
use vstd::string::StrSliceExecFns;

verus! {

/// The lower-case hexadecimal digit of a value below 16.
pub open spec fn hex_char(d: nat) -> char {
    if d == 0 {
        '0'
    } else if d == 1 {
        '1'
    } else if d == 2 {
        '2'
    } else if d == 3 {
        '3'
    } else if d == 4 {
        '4'
    } else if d == 5 {
        '5'
    } else if d == 6 {
        '6'
    } else if d == 7 {
        '7'
    } else if d == 8 {
        '8'
    } else if d == 9 {
        '9'
    } else if d == 10 {
        'a'
    } else if d == 11 {
        'b'
    } else if d == 12 {
        'c'
    } else if d == 13 {
        'd'
    } else if d == 14 {
        'e'
    } else {
        'f'
    }
}

fn hex_char_of(d: u8) -> (c: char)
    requires
        d < 16,
    ensures
        c == hex_char(d as nat),
{
    if d == 0 {
        '0'
    } else if d == 1 {
        '1'
    } else if d == 2 {
        '2'
    } else if d == 3 {
        '3'
    } else if d == 4 {
        '4'
    } else if d == 5 {
        '5'
    } else if d == 6 {
        '6'
    } else if d == 7 {
        '7'
    } else if d == 8 {
        '8'
    } else if d == 9 {
        '9'
    } else if d == 10 {
        'a'
    } else if d == 11 {
        'b'
    } else if d == 12 {
        'c'
    } else if d == 13 {
        'd'
    } else if d == 14 {
        'e'
    } else {
        'f'
    }
}

/// Appends one character to a string.
///
/// Relies on `String::push`, which appends `c` at the end.
#[verifier::external_body]
fn push_char(s: &mut String, c: char)
    ensures
        final(s)@ == old(s)@.push(c),
{
    s.push(c)
}

/// A string holding exactly the given characters.
fn string_of(chars: &Vec<char>) -> (r: String)
    ensures
        r@ == chars@,
{
    let mut s = String::new();
    let mut i: usize = 0;
    while i < chars.len()
        invariant
            i <= chars@.len(),
            s@ == chars@.subrange(0, i as int),
        decreases chars@.len() - i,
    {
        proof {
            assert(chars@.subrange(0, i + 1) =~= chars@.subrange(0, i as int).push(chars@[i as int]));
        }
        push_char(&mut s, chars[i]);
        i += 1;
    }
    proof {
        assert(chars@.subrange(0, chars@.len() as int) =~= chars@);
    }
    s
}

/// The two lower-case hexadecimal digits of a byte.
pub open spec fn byte_hex(b: u8) -> Seq<char> {
    seq![hex_char((b / 16) as nat), hex_char((b % 16) as nat)]
}

/// The two-digit renderings of `bytes`, separated by single spaces.
pub open spec fn spaced_hex(bytes: Seq<u8>) -> Seq<char>
    decreases bytes.len(),
{
    if bytes.len() == 0 {
        Seq::empty()
    } else if bytes.len() == 1 {
        byte_hex(bytes[0])
    } else {
        spaced_hex(bytes.drop_last()) + seq![' '] + byte_hex(bytes.last())
    }
}

/// The rendering of at most `limit` leading bytes of `data`, followed by
/// `" ..."` when bytes were left out.
pub open spec fn hex_preview(data: Seq<u8>, limit: nat) -> Seq<char> {
    if data.len() > limit {
        spaced_hex(data.subrange(0, limit as int)) + seq![' ', '.', '.', '.']
    } else {
        spaced_hex(data)
    }
}

fn push_byte_hex(out: &mut Vec<char>, b: u8)
    ensures
        final(out)@ == old(out)@ + byte_hex(b),
{
    out.push(hex_char_of(b / 16));
    out.push(hex_char_of(b % 16));
    proof {
        assert(final(out)@ =~= old(out)@ + byte_hex(b));
    }
}

pub fn bytes_to_hex(data: &[u8], limit: usize) -> (r: String)
    ensures
        r@ == hex_preview(data@, limit as nat),
{
    let take = if data.len() < limit {
        data.len()
    } else {
        limit
    };
    let mut out: Vec<char> = Vec::new();
    let mut i: usize = 0;
    while i < take
        invariant
            take <= data@.len(),
            i <= take,
            out@ == spaced_hex(data@.subrange(0, i as int)),
        decreases take - i,
    {
        let ghost before = data@.subrange(0, i as int);
        proof {
            let next = data@.subrange(0, i + 1);
            assert(next.drop_last() =~= before);
            assert(next.last() == data@[i as int]);
        }
        if i > 0 {
            out.push(' ');
        }
        push_byte_hex(&mut out, data[i]);
        proof {
            if i == 0 {
                assert(before =~= Seq::<u8>::empty());
                assert(out@ =~= spaced_hex(data@.subrange(0, 1)));
            }
        }
        i += 1;
    }
    if data.len() > limit {
        out.push(' ');
        out.push('.');
        out.push('.');
        out.push('.');
    } else {
        proof {
            assert(data@.subrange(0, take as int) =~= data@);
        }
    }
    string_of(&out)
}

/// `s` with every space removed.
pub open spec fn without_spaces(s: Seq<char>) -> Seq<char>
    decreases s.len(),
{
    if s.len() == 0 {
        Seq::empty()
    } else if s.last() == ' ' {
        without_spaces(s.drop_last())
    } else {
        without_spaces(s.drop_last()).push(s.last())
    }
}

pub fn hex_without_spaces(hex: &str) -> (r: String)
    ensures
        r@ == without_spaces(hex@),
{
    let n = hex.unicode_len();
    let mut out: Vec<char> = Vec::new();
    let mut i: usize = 0;
    while i < n
        invariant
            n == hex@.len(),
            i <= n,
            out@ == without_spaces(hex@.subrange(0, i as int)),
        decreases n - i,
    {
        let c = hex.get_char(i);
        proof {
            let next = hex@.subrange(0, i + 1);
            assert(next.drop_last() =~= hex@.subrange(0, i as int));
        }
        if c != ' ' {
            out.push(c);
        }
        i += 1;
    }
    proof {
        assert(hex@.subrange(0, n as int) =~= hex@);
    }
    string_of(&out)
}

/// Unicode white space, as `char::is_whitespace` defines it.
pub open spec fn is_space(c: char) -> bool {
    c == '\t' || c == '\n' || c == '\u{0B}' || c == '\u{0C}' || c == '\r' || c == ' ' || c == '\u{85}' || c == '\u{A0}' || c == '\u{1680}' || c == '\u{2028}' || c == '\u{2029}' || c == '\u{202F}' || c == '\u{205F}' || c == '\u{3000}' || ('\u{2000}' <= c && c <= '\u{200A}')
}

fn is_space_char(c: char) -> (r: bool)
    ensures
        r == is_space(c),
{
    c == '\t' || c == '\n' || c == '\u{0B}' || c == '\u{0C}' || c == '\r' || c == ' ' || c == '\u{85}' || c == '\u{A0}' || c == '\u{1680}' || c == '\u{2028}' || c == '\u{2029}' || c == '\u{202F}' || c == '\u{205F}' || c == '\u{3000}' || ('\u{2000}' <= c && c <= '\u{200A}')
}

/// The value of a hexadecimal digit of either case.
pub open spec fn hex_value_of(c: char) -> Option<nat> {
    if '0' <= c && c <= '9' {
        Some((c as u32 - '0' as u32) as nat)
    } else if 'a' <= c && c <= 'f' {
        Some((c as u32 - 'a' as u32 + 10) as nat)
    } else if 'A' <= c && c <= 'F' {
        Some((c as u32 - 'A' as u32 + 10) as nat)
    } else {
        None
    }
}

/// Whether every character of `d` is a hexadecimal digit.
pub open spec fn all_hex(d: Seq<char>) -> bool {
    forall|i: int| 0 <= i < d.len() ==> (#[trigger] hex_value_of(d[i])) is Some
}

/// The number written by the hexadecimal digits `d`.
pub open spec fn hex_number(d: Seq<char>) -> nat
    decreases d.len(),
{
    if d.len() == 0 {
        0
    } else {
        16 * hex_number(d.drop_last()) + hex_value_of(d.last())->Some_0
    }
}

/// A token read as a byte in base 16: an optional `+`, then at least one
/// hexadecimal digit, for a value of at most 255.
pub open spec fn parse_hex_byte(tok: Seq<char>) -> Option<u8> {
    let d = if tok.len() > 0 && tok[0] == '+' {
        tok.drop_first()
    } else {
        tok
    };
    if d.len() > 0 && all_hex(d) && hex_number(d) <= 255 {
        Some(hex_number(d) as u8)
    } else {
        None
    }
}

/// The byte that a token gives, if any, as a sequence of zero or one bytes.
pub open spec fn token_bytes(tok: Seq<char>) -> Seq<u8> {
    match parse_hex_byte(tok) {
        Some(b) => seq![b],
        None => Seq::empty(),
    }
}

/// The bytes of the white-space separated tokens of `s` that read as bytes in
/// base 16, in order, where `cur` is a token already begun before `s`.
pub open spec fn hex_tokens_from(s: Seq<char>, cur: Seq<char>) -> Seq<u8>
    decreases s.len(),
{
    if s.len() == 0 {
        token_bytes(cur)
    } else if is_space(s[0]) {
        token_bytes(cur) + hex_tokens_from(s.drop_first(), Seq::empty())
    } else {
        hex_tokens_from(s.drop_first(), cur.push(s[0]))
    }
}

/// The bytes of the white-space separated tokens of `s` that read as bytes in
/// base 16; other tokens are skipped.
pub open spec fn hex_tokens(s: Seq<char>) -> Seq<u8> {
    hex_tokens_from(s, Seq::empty())
}

fn hex_value_char(c: char) -> (r: Option<u8>)
    ensures
        match hex_value_of(c) {
            Some(v) => r == Some(v as u8),
            None => r is None,
        },
{
    if '0' <= c && c <= '9' {
        Some((c as u32 - '0' as u32) as u8)
    } else if 'a' <= c && c <= 'f' {
        Some((c as u32 - 'a' as u32 + 10) as u8)
    } else if 'A' <= c && c <= 'F' {
        Some((c as u32 - 'A' as u32 + 10) as u8)
    } else {
        None
    }
}

fn parse_token(tok: &Vec<char>) -> (r: Option<u8>)
    ensures
        r == parse_hex_byte(tok@),
{
    let start: usize = if tok.len() > 0 && tok[0] == '+' {
        1
    } else {
        0
    };
    let ghost d = if tok@.len() > 0 && tok@[0] == '+' {
        tok@.drop_first()
    } else {
        tok@
    };
    proof {
        assert(d =~= tok@.subrange(start as int, tok@.len() as int));
    }
    if start >= tok.len() {
        return None;
    }
    let mut value: u32 = 0;
    let mut i: usize = start;
    while i < tok.len()
        invariant
            start <= i <= tok@.len(),
            d == tok@.subrange(start as int, tok@.len() as int),
            d == (if tok@.len() > 0 && tok@[0] == '+' {
                tok@.drop_first()
            } else {
                tok@
            }),
            all_hex(tok@.subrange(start as int, i as int)),
            value as nat == if hex_number(tok@.subrange(start as int, i as int)) < 256 {
                hex_number(tok@.subrange(start as int, i as int))
            } else {
                256
            },
        decreases tok@.len() - i,
    {
        let ghost pre = tok@.subrange(start as int, i as int);
        let ghost next = tok@.subrange(start as int, i + 1);
        proof {
            assert(next.drop_last() =~= pre);
            assert(next.last() == tok@[i as int]);
        }
        match hex_value_char(tok[i]) {
            Some(v) => {
                let wide = value * 16 + v as u32;
                value = if wide > 256 {
                    256
                } else {
                    wide
                };
                proof {
                    assert forall|k: int| 0 <= k < next.len() implies (#[trigger] hex_value_of(
                        next[k],
                    )) is Some by {
                        if k < pre.len() {
                            assert(next[k] == pre[k]);
                        }
                    }
                }
            },
            None => {
                proof {
                    let k = i - start;
                    assert(d[k] == tok@[i as int]);
                    assert(hex_value_of(d[k]) is None);
                    assert(!all_hex(d));
                }
                return None;
            },
        }
        i += 1;
    }
    proof {
        assert(tok@.subrange(start as int, i as int) =~= d);
    }
    if value > 255 {
        None
    } else {
        Some(value as u8)
    }
}

pub fn hex_string_to_bytes(hex_str: &str) -> (r: Vec<u8>)
    ensures
        r@ == hex_tokens(hex_str@),
{
    let n = hex_str.unicode_len();
    let mut out: Vec<u8> = Vec::new();
    let mut cur: Vec<char> = Vec::new();
    let mut i: usize = 0;
    proof {
        assert(hex_str@.skip(0) =~= hex_str@);
        assert(cur@ =~= Seq::<char>::empty());
        assert(out@ + hex_tokens(hex_str@) =~= hex_tokens(hex_str@));
    }
    while i < n
        invariant
            n == hex_str@.len(),
            i <= n,
            hex_tokens(hex_str@) == out@ + hex_tokens_from(hex_str@.skip(i as int), cur@),
        decreases n - i,
    {
        let c = hex_str.get_char(i);
        let ghost rest = hex_str@.skip(i as int);
        proof {
            assert(rest.drop_first() =~= hex_str@.skip(i + 1));
            assert(rest[0] == c);
        }
        if is_space_char(c) {
            let ghost before = out@;
            match parse_token(&cur) {
                Some(b) => out.push(b),
                None => {},
            }
            proof {
                assert(out@ =~= before + token_bytes(cur@));
                assert(hex_tokens_from(rest, cur@) == token_bytes(cur@) + hex_tokens_from(
                    rest.drop_first(),
                    Seq::empty(),
                ));
            }
            cur = Vec::new();
            proof {
                assert(cur@ =~= Seq::<char>::empty());
            }
        } else {
            cur.push(c);
        }
        i += 1;
    }
    let ghost before = out@;
    match parse_token(&cur) {
        Some(b) => out.push(b),
        None => {},
    }
    proof {
        assert(hex_str@.skip(n as int) =~= Seq::<char>::empty());
        assert(out@ =~= before + token_bytes(cur@));
    }
    out
}

/// The digits of `v` in lower-case base 16, without leading zeros.
pub open spec fn lower_hex(v: nat) -> Seq<char>
    decreases v,
{
    if v < 16 {
        seq![hex_char(v)]
    } else {
        lower_hex(v / 16).push(hex_char(v % 16))
    }
}

/// `lower_hex(v)` with zeros added on the left up to `w` characters.
pub open spec fn padded_hex(v: nat, w: nat) -> Seq<char> {
    let h = lower_hex(v);
    if h.len() < w {
        Seq::new((w - h.len()) as nat, |i: int| '0') + h
    } else {
        h
    }
}

/// The hexadecimal column of a dump line: two digits per byte, with a space
/// after each of the first eight bytes.
pub open spec fn dump_hex_column(chunk: Seq<u8>) -> Seq<char>
    decreases chunk.len(),
{
    if chunk.len() == 0 {
        Seq::empty()
    } else {
        dump_hex_column(chunk.drop_last()) + byte_hex(chunk.last()) + if chunk.len() <= 8 {
            seq![' ']
        } else {
            Seq::empty()
        }
    }
}

/// How a byte shows in the text column of a dump: printable ASCII as
/// itself, anything else as a dot.
pub open spec fn printable(b: u8) -> char {
    if 32 <= b && b <= 126 {
        b as char
    } else {
        '.'
    }
}

/// One line of a dump: the offset in eight hex digits, the bytes (at most
/// sixteen), padding up to the width of sixteen, and the bytes as text.
pub open spec fn dump_line(chunk: Seq<u8>, offset: nat) -> Seq<char> {
    padded_hex(offset, 8) + seq![':', ' '] + dump_hex_column(chunk) + Seq::new(
        (3 * (16 - chunk.len())) as nat,
        |i: int| ' ',
    ) + seq![' '] + Seq::new(chunk.len(), |i: int| printable(chunk[i])) + seq!['\n']
}

/// The dump lines of `data` from byte `start` on, sixteen bytes to a line.
pub open spec fn dump_from(data: Seq<u8>, start: nat) -> Seq<char>
    decreases data.len() - start,
{
    if start >= data.len() {
        Seq::empty()
    } else {
        let end = if start + 16 < data.len() {
            start + 16
        } else {
            data.len()
        };
        dump_line(data.subrange(start as int, end as int), start) + dump_from(data, end)
    }
}

/// `s` without its trailing white space.
pub open spec fn trim_end(s: Seq<char>) -> Seq<char>
    decreases s.len(),
{
    if s.len() > 0 && is_space(s.last()) {
        trim_end(s.drop_last())
    } else {
        s
    }
}

/// The dump of at most `max` bytes read from the hexadecimal text `hex`.
pub open spec fn xxd_dump(hex: Seq<char>, max: nat) -> Seq<char> {
    let bytes = hex_tokens(hex);
    let data = if bytes.len() < max {
        bytes
    } else {
        bytes.subrange(0, max as int)
    };
    trim_end(dump_from(data, 0))
}

fn hex_len(v: usize) -> (r: usize)
    ensures
        r == lower_hex(v as nat).len(),
        r <= v / 16 + 1,
    decreases v,
{
    if v < 16 {
        1
    } else {
        let k = hex_len(v / 16);
        k + 1
    }
}

fn push_lower_hex(out: &mut Vec<char>, v: usize)
    ensures
        final(out)@ == old(out)@ + lower_hex(v as nat),
    decreases v,
{
    if v < 16 {
        out.push(hex_char_of(v as u8));
    } else {
        push_lower_hex(out, v / 16);
        out.push(hex_char_of((v % 16) as u8));
    }
    proof {
        assert(final(out)@ =~= old(out)@ + lower_hex(v as nat));
    }
}

fn push_offset(out: &mut Vec<char>, v: usize)
    ensures
        final(out)@ == old(out)@ + padded_hex(v as nat, 8),
{
    let n = hex_len(v);
    let ghost start = out@;
    if n < 8 {
        let mut k: usize = 0;
        while k < 8 - n
            invariant
                n < 8,
                k <= 8 - n,
                out@ =~= start + Seq::new(k as nat, |i: int| '0'),
            decreases 8 - n - k,
        {
            out.push('0');
            k += 1;
        }
    }
    push_lower_hex(out, v);
    proof {
        assert(out@ =~= start + padded_hex(v as nat, 8));
    }
}

fn printable_char(b: u8) -> (c: char)
    ensures
        c == printable(b),
{
    if 32 <= b && b <= 126 {
        b as char
    } else {
        '.'
    }
}

fn push_dump_line(out: &mut Vec<char>, data: &Vec<u8>, start: usize, end: usize)
    requires
        start < end <= data@.len(),
        end - start <= 16,
    ensures
        final(out)@ == old(out)@ + dump_line(data@.subrange(start as int, end as int), start as nat),
{
    let ghost chunk = data@.subrange(start as int, end as int);
    let ghost before = out@;
    push_offset(out, start);
    out.push(':');
    out.push(' ');
    let ghost head = out@;
    let mut i: usize = start;
    while i < end
        invariant
            start <= i <= end,
            end <= data@.len(),
            chunk == data@.subrange(start as int, end as int),
            out@ == head + dump_hex_column(data@.subrange(start as int, i as int)),
        decreases end - i,
    {
        proof {
            let next = data@.subrange(start as int, i + 1);
            assert(next.drop_last() =~= data@.subrange(start as int, i as int));
        }
        push_byte_hex(out, data[i]);
        if i - start <= 7 {
            out.push(' ');
        }
        proof {
            let next = data@.subrange(start as int, i + 1);
            assert(out@ =~= head + dump_hex_column(next));
        }
        i += 1;
    }
    let ghost cols = out@;
    let pad: usize = 3 * (16 - (end - start));
    let mut k: usize = 0;
    while k < pad
        invariant
            k <= pad,
            out@ =~= cols + Seq::new(k as nat, |j: int| ' '),
        decreases pad - k,
    {
        out.push(' ');
        k += 1;
    }
    out.push(' ');
    let ghost text_start = out@;
    let mut j: usize = start;
    while j < end
        invariant
            start <= j <= end,
            end <= data@.len(),
            out@ =~= text_start + Seq::new((j - start) as nat, |t: int| printable(data@[start + t])),
        decreases end - j,
    {
        out.push(printable_char(data[j]));
        j += 1;
    }
    out.push('\n');
    proof {
        assert(out@ =~= before + dump_line(chunk, start as nat));
    }
}

pub fn format_xxd_style(hex_str: &str, max_bytes: usize) -> (r: String)
    ensures
        r@ == xxd_dump(hex_str@, max_bytes as nat),
{
    let bytes = hex_string_to_bytes(hex_str);
    let take = if bytes.len() < max_bytes {
        bytes.len()
    } else {
        max_bytes
    };
    let mut data: Vec<u8> = Vec::new();
    let mut i: usize = 0;
    while i < take
        invariant
            take <= bytes@.len(),
            i <= take,
            data@ =~= bytes@.subrange(0, i as int),
        decreases take - i,
    {
        data.push(bytes[i]);
        i += 1;
    }
    proof {
        if bytes@.len() < max_bytes {
            assert(data@ =~= bytes@);
        }
    }
    let len = data.len();
    let mut out: Vec<char> = Vec::new();
    let mut start: usize = 0;
    while start < len
        invariant
            start <= len,
            len == data@.len(),
            dump_from(data@, 0) == out@ + dump_from(data@, start as nat),
        decreases len - start,
    {
        let end = if len - start > 16 {
            start + 16
        } else {
            len
        };
        push_dump_line(&mut out, &data, start, end);
        proof {
            assert(dump_from(data@, start as nat) == dump_line(
                data@.subrange(start as int, end as int),
                start as nat,
            ) + dump_from(data@, end as nat));
        }
        start = end;
    }
    proof {
        assert(out@ + Seq::<char>::empty() =~= out@);
    }
    let ghost full = out@;
    while out.len() > 0 && is_space_char(out[out.len() - 1])
        invariant
            trim_end(full) == trim_end(out@),
        decreases out@.len(),
    {
        proof {
            assert(out@.drop_last() == out@.subrange(0, out@.len() - 1));
        }
        out.pop();
    }
    string_of(&out)
}

/// The digits of `v` in base 10, without leading zeros.
pub open spec fn decimal(v: nat) -> Seq<char>
    decreases v,
{
    if v < 10 {
        seq![hex_char(v)]
    } else {
        decimal(v / 10).push(hex_char(v % 10))
    }
}

/// `decimal(v)` with zeros added on the left up to `w` characters.
pub open spec fn padded_decimal(v: nat, w: nat) -> Seq<char> {
    let d = decimal(v);
    if d.len() < w {
        Seq::new((w - d.len()) as nat, |i: int| '0') + d
    } else {
        d
    }
}

/// How many low bits of `v` a 53-bit significand cannot hold.
pub open spec fn excess_bits(v: nat) -> nat
    decreases v,
{
    if v < pow2(53) || v < 2 {
        0
    } else {
        1 + excess_bits(v / 2)
    }
}

/// The value of `v` once converted to the nearest `f64`, ties to even.
pub open spec fn nearest_f64(v: nat) -> nat {
    let s = excess_bits(v);
    (round_half_even(v as int, pow2(s) as int) * pow2(s)) as nat
}

/// `v / 2^shift` written with `places` decimals (`scale == 10^places`),
/// rounded half to even at the last place.
pub open spec fn scaled_text(v: nat, shift: nat, scale: nat, places: nat) -> Seq<char> {
    let n = round_half_even((v * scale) as int, pow2(shift) as int);
    decimal((n / scale as int) as nat) + seq!['.'] + padded_decimal((n % scale as int) as nat, places)
}

/// A byte count as text: in gibibytes, mebibytes or kibibytes with two
/// decimals from one unit up, else in bytes.
pub open spec fn size_text(bytes: u64) -> Seq<char> {
    if bytes >= 0x4000_0000 {
        scaled_text(nearest_f64(bytes as nat), 30, 100, 2) + seq![' ', 'G', 'B']
    } else if bytes >= 0x10_0000 {
        scaled_text(bytes as nat, 20, 100, 2) + seq![' ', 'M', 'B']
    } else if bytes >= 0x400 {
        scaled_text(bytes as nat, 10, 100, 2) + seq![' ', 'K', 'B']
    } else {
        decimal(bytes as nat) + seq![' ', 'B']
    }
}

/// A frame size as text: in mebibytes or kibibytes with one decimal from one
/// unit up, else in bytes.
pub open spec fn frame_size_text(bytes: usize) -> Seq<char> {
    if bytes >= 0x10_0000 {
        scaled_text(nearest_f64(bytes as nat), 20, 10, 1) + seq![' ', 'M', 'B']
    } else if bytes >= 0x400 {
        scaled_text(bytes as nat, 10, 10, 1) + seq![' ', 'K', 'B']
    } else {
        decimal(bytes as nat) + seq![' ', 'B']
    }
}

fn decimal_len(v: u128) -> (r: u128)
    ensures
        r == decimal(v as nat).len(),
        r <= v / 10 + 1,
    decreases v,
{
    if v < 10 {
        1
    } else {
        let k = decimal_len(v / 10);
        k + 1
    }
}

fn push_decimal(out: &mut Vec<char>, v: u128)
    ensures
        final(out)@ == old(out)@ + decimal(v as nat),
    decreases v,
{
    if v < 10 {
        out.push(hex_char_of(v as u8));
    } else {
        push_decimal(out, v / 10);
        out.push(hex_char_of((v % 10) as u8));
    }
    proof {
        assert(final(out)@ =~= old(out)@ + decimal(v as nat));
    }
}

fn push_padded_decimal(out: &mut Vec<char>, v: u128, w: usize)
    ensures
        final(out)@ == old(out)@ + padded_decimal(v as nat, w as nat),
{
    let len = decimal_len(v);
    let ghost start = out@;
    if len < w as u128 {
        let n = len as usize;
        let mut k: usize = 0;
        while k < w - n
            invariant
                n < w,
                k <= w - n,
                out@ =~= start + Seq::new(k as nat, |i: int| '0'),
            decreases w - n - k,
        {
            out.push('0');
            k += 1;
        }
    }
    push_decimal(out, v);
    proof {
        assert(out@ =~= start + padded_decimal(v as nat, w as nat));
    }
}

/// The value of `v` as the nearest `f64` holds it.
fn nearest_f64_of(v: u64) -> (r: u128)
    ensures
        r == nearest_f64(v as nat),
        r <= 0x1_0000_0000_0000_0000,
{
    let mut x: u64 = v;
    let mut s: u32 = 0;
    proof {
        lemma2_to64();
        vstd::arithmetic::power2::lemma2_to64_rest();
    }
    while x >= 0x20_0000_0000_0000
        invariant
            s <= 11,
            x < pow2((64 - s) as nat),
            excess_bits(v as nat) == s + excess_bits(x as nat),
            pow2(53) == 0x20_0000_0000_0000,
        decreases x,
    {
        proof {
            if 64 - s <= 53 {
                if 64 - s < 53 {
                    lemma_pow2_strictly_increases((64 - s) as nat, 53);
                }
            }
            lemma_pow2_unfold((64 - s) as nat);
        }
        x = x / 2;
        s += 1;
    }
    proof {
        lemma_u64_pow2_no_overflow_local(s);
        lemma_u64_shl_is_mul(1, s as u64);
        vstd::bits::lemma_u64_pow2_no_overflow(s as nat);
    }
    let p: u64 = 1u64 << s as u64;
    let q: u64 = v / p;
    let rem: u64 = v % p;
    let up = rem > p - rem || (rem == p - rem && q % 2 == 1);
    let rounded: u128 = if up {
        q as u128 + 1
    } else {
        q as u128
    };
    proof {
        let k = pow2((64 - s) as nat);
        vstd::arithmetic::power2::lemma_pow2_adds(s as nat, (64 - s) as nat);
        vstd::arithmetic::div_mod::lemma_fundamental_div_mod(v as int, p as int);
        assert(rounded * p <= 0x1_0000_0000_0000_0000) by (nonlinear_arith)
            requires
                rounded <= q + 1,
                v == p * q + rem,
                rem >= 0,
                p * k == 0x1_0000_0000_0000_0000,
                v < 0x1_0000_0000_0000_0000,
                p > 0,
        ;
    }
    rounded * p as u128
}

proof fn lemma_u64_pow2_no_overflow_local(s: u32)
    requires
        s <= 11,
    ensures
        pow2(s as nat) <= 0x800,
{
    lemma2_to64();
    if s < 11 {
        lemma_pow2_strictly_increases(s as nat, 11);
    }
}

/// Appends `v / 2^shift` with `places` decimals, rounded half to even.
fn push_scaled(out: &mut Vec<char>, v: u128, shift: u32, scale: u128, places: usize)
    requires
        v <= 0x1_0000_0000_0000_0000,
        shift < 64,
        0 < scale <= 100,
    ensures
        final(out)@ == old(out)@ + scaled_text(v as nat, shift as nat, scale as nat, places as nat),
{
    proof {
        vstd::bits::lemma_u64_pow2_no_overflow(shift as nat);
        lemma_u64_shl_is_mul(1, shift as u64);
        assert(v * scale <= 0x1_0000_0000_0000_0000 * 100) by (nonlinear_arith)
            requires
                v <= 0x1_0000_0000_0000_0000,
                scale <= 100,
        ;
    }
    let d: u128 = (1u64 << shift as u64) as u128;
    let n: u128 = v * scale;
    let q: u128 = n / d;
    let r: u128 = n % d;
    let up = r > d - r || (r == d - r && q % 2 == 1);
    let rounded: u128 = if up {
        q + 1
    } else {
        q
    };
    proof {
        assert(q <= n) by (nonlinear_arith)
            requires
                q == n / d,
                d >= 1,
        ;
    }
    push_decimal(out, rounded / scale);
    out.push('.');
    push_padded_decimal(out, rounded % scale, places);
}

pub fn format_size(bytes: u64) -> (r: String)
    ensures
        r@ == size_text(bytes),
{
    let mut out: Vec<char> = Vec::new();
    if bytes >= 0x4000_0000 {
        let v = nearest_f64_of(bytes);
        push_scaled(&mut out, v, 30, 100, 2);
        out.push(' ');
        out.push('G');
        out.push('B');
    } else if bytes >= 0x10_0000 {
        push_scaled(&mut out, bytes as u128, 20, 100, 2);
        out.push(' ');
        out.push('M');
        out.push('B');
    } else if bytes >= 0x400 {
        push_scaled(&mut out, bytes as u128, 10, 100, 2);
        out.push(' ');
        out.push('K');
        out.push('B');
    } else {
        push_decimal(&mut out, bytes as u128);
        out.push(' ');
        out.push('B');
    }
    proof {
        assert(out@ =~= size_text(bytes));
    }
    string_of(&out)
}

pub fn format_frame_size(bytes: usize) -> (r: String)
    ensures
        r@ == frame_size_text(bytes),
{
    let mut out: Vec<char> = Vec::new();
    if bytes >= 0x10_0000 {
        let v = nearest_f64_of(bytes as u64);
        push_scaled(&mut out, v, 20, 10, 1);
        out.push(' ');
        out.push('M');
        out.push('B');
    } else if bytes >= 0x400 {
        push_scaled(&mut out, bytes as u128, 10, 10, 1);
        out.push(' ');
        out.push('K');
        out.push('B');
    } else {
        push_decimal(&mut out, bytes as u128);
        out.push(' ');
        out.push('B');
    }
    proof {
        assert(out@ =~= frame_size_text(bytes));
    }
    string_of(&out)
}

} // verus!
