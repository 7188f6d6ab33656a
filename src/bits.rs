//! A bit-level cursor over a byte slice, most significant bit first.

use vstd::arithmetic::power2::{lemma_pow2_unfold, pow2};
use vstd::bits::lemma_u64_shl_is_mul;
use vstd::prelude::*;

verus! {

/// The bit at absolute bit position `i` of `data`; bit 0 is the most
/// significant bit of the first byte.
pub open spec fn bit_at(data: Seq<u8>, i: nat) -> u8 {
    (data[(i / 8) as int] >> ((7 - i % 8) as u8)) & 1u8
}

/// The unsigned value of the `n` bits of `data` that start at bit position
/// `start`, the first of them being the most significant.
pub open spec fn bits_value(data: Seq<u8>, start: nat, n: nat) -> nat
    decreases n,
{
    if n == 0 {
        0
    } else {
        2 * bits_value(data, start, (n - 1) as nat) + bit_at(data, (start + n - 1) as nat) as nat
    }
}

/// The two's complement reading of the `n`-bit unsigned value `v`.
pub open spec fn signed_value(v: nat, n: nat) -> int {
    if n > 0 && v >= pow2((n - 1) as nat) {
        v - pow2(n)
    } else {
        v as int
    }
}

proof fn lemma_bit_at_is_bit(data: Seq<u8>, i: nat)
    ensures
        bit_at(data, i) <= 1,
{
    let b = data[(i / 8) as int];
    let s = (7 - i % 8) as u8;
    assert((b >> s) & 1u8 <= 1u8) by (bit_vector);
}

/// A value read from `n` bits is below `2^n`.
pub proof fn lemma_bits_value_bound(data: Seq<u8>, start: nat, n: nat)
    ensures
        bits_value(data, start, n) < pow2(n),
    decreases n,
{
    if n > 0 {
        lemma_bits_value_bound(data, start, (n - 1) as nat);
        lemma_bit_at_is_bit(data, (start + n - 1) as nat);
        lemma_pow2_unfold(n);
    } else {
        vstd::arithmetic::power2::lemma2_to64();
    }
}

/// Reading `n` bits and then `m` more gives the same bits as one read of
/// `n + m`: the wide value is the first part shifted left by `m`, plus the
/// second part.
pub proof fn lemma_split_read(data: Seq<u8>, start: nat, n: nat, m: nat)
    ensures
        bits_value(data, start, n + m) == bits_value(data, start, n) * pow2(m) + bits_value(
            data,
            start + n,
            m,
        ),
    decreases m,
{
    if m == 0 {
        vstd::arithmetic::power2::lemma2_to64();
    } else {
        lemma_split_read(data, start, n, (m - 1) as nat);
        lemma_pow2_unfold(m);
        let a = bits_value(data, start, n);
        let p = pow2((m - 1) as nat);
        let last = bit_at(data, (start + n + m - 1) as nat) as nat;
        assert(bits_value(data, start, n + m) == 2 * bits_value(data, start, (n + m - 1) as nat)
            + last);
        assert(bits_value(data, start + n, m) == 2 * bits_value(data, start + n, (m - 1) as nat)
            + last);
        assert((n + m - 1) as nat == n + (m - 1) as nat);
        assert(2 * (a * p) == a * (2 * p)) by (nonlinear_arith);
    }
}

/// A read-only cursor over bytes that hands out bits most significant first.
pub struct BitReader<'a> {
    data: &'a [u8],
    byte_pos: usize,
    bit_pos: u8,
}

impl<'a> BitReader<'a> {
    /// The bytes being read.
    pub closed spec fn bytes(&self) -> Seq<u8> {
        self.data@
    }

    /// The cursor, in bits from the start of the data.
    pub closed spec fn pos(&self) -> nat {
        (self.byte_pos * 8 + self.bit_pos) as nat
    }

    /// The cursor lies within a byte and every bit position fits in `usize`.
    pub closed spec fn wf(&self) -> bool {
        &&& self.bit_pos < 8
        &&& self.data@.len() * 8 <= usize::MAX
        &&& self.byte_pos * 8 + self.bit_pos <= usize::MAX
    }

    /// How many bits are left after the cursor (none once it has run past the end).
    pub open spec fn remaining(&self) -> nat {
        if self.pos() < self.bytes().len() * 8 {
            (self.bytes().len() * 8 - self.pos()) as nat
        } else {
            0
        }
    }

    pub fn new(data: &'a [u8]) -> (r: Self)
        requires
            data@.len() * 8 <= usize::MAX,
        ensures
            r.wf(),
            r.bytes() == data@,
            r.pos() == 0,
    {
        BitReader { data, byte_pos: 0, bit_pos: 0 }
    }

    pub fn position_bits(&self) -> (r: usize)
        requires
            self.wf(),
        ensures
            r == self.pos(),
    {
        self.byte_pos * 8 + self.bit_pos as usize
    }

    pub fn remaining_bits(&self) -> (r: usize)
        requires
            self.wf(),
        ensures
            r == self.remaining(),
    {
        if self.byte_pos >= self.data.len() {
            return 0;
        }
        (self.data.len() - self.byte_pos) * 8 - self.bit_pos as usize
    }

    pub fn skip_bits(&mut self, n: usize)
        requires
            old(self).wf(),
            old(self).pos() + n <= usize::MAX,
        ensures
            final(self).wf(),
            final(self).bytes() == old(self).bytes(),
            final(self).pos() == old(self).pos() + n,
    {
        let total = self.bit_pos as usize + n;
        self.byte_pos += total / 8;
        self.bit_pos = (total % 8) as u8;
    }

    pub fn read_bit(&mut self) -> (r: Option<bool>)
        requires
            old(self).wf(),
        ensures
            final(self).wf(),
            final(self).bytes() == old(self).bytes(),
            old(self).remaining() == 0 ==> r is None && *final(self) == *old(self),
            old(self).remaining() > 0 ==> r == Some(bit_at(old(self).bytes(), old(self).pos()) == 1)
                && final(self).pos() == old(self).pos() + 1,
    {
        if self.byte_pos >= self.data.len() {
            return None;
        }
        proof {
            let p = self.byte_pos * 8 + self.bit_pos;
            assert(p / 8 == self.byte_pos && p % 8 == self.bit_pos) by (nonlinear_arith)
                requires
                    p == self.byte_pos * 8 + self.bit_pos,
                    self.bit_pos < 8,
            ;
        }
        let bit = (self.data[self.byte_pos] >> (7 - self.bit_pos)) & 1;
        proof {
            lemma_bit_at_is_bit(self.data@, old(self).pos());
            assert(bit == bit_at(self.data@, old(self).pos()));
        }
        self.bit_pos += 1;
        if self.bit_pos == 8 {
            self.bit_pos = 0;
            self.byte_pos += 1;
        }
        Some(bit != 0)
    }

    pub fn read_bits(&mut self, n: u32) -> (r: Option<u32>)
        requires
            old(self).wf(),
        ensures
            final(self).wf(),
            final(self).bytes() == old(self).bytes(),
            n <= 32 && n <= old(self).remaining() ==> r == Some(
                bits_value(old(self).bytes(), old(self).pos(), n as nat) as u32,
            ) && final(self).pos() == old(self).pos() + n,
            !(n <= 32 && n <= old(self).remaining()) ==> r is None && *final(self) == *old(self),
    {
        if n == 0 {
            return Some(0);
        }
        if n > 32 || self.remaining_bits() < n as usize {
            return None;
        }
        let ghost data = self.bytes();
        let ghost start = self.pos();
        let mut result: u32 = 0;
        let mut i: u32 = 0;
        while i < n
            invariant
                self.wf(),
                self.bytes() == data,
                start + n <= data.len() * 8,
                n <= 32,
                i <= n,
                self.pos() == start + i,
                result == bits_value(data, start, i as nat),
            decreases n - i,
        {
            proof {
                lemma_bits_value_bound(data, start, (i + 1) as nat);
                vstd::bits::lemma_u32_pow2_no_overflow(i as nat);
                lemma_pow2_unfold((i + 1) as nat);
                assert(pow2((i + 1) as nat) <= 0x1_0000_0000) by {
                    vstd::arithmetic::power2::lemma2_to64();
                    if i + 1 < 32 {
                        vstd::arithmetic::power2::lemma_pow2_strictly_increases((i + 1) as nat, 32);
                    }
                }
            }
            let bit = match self.read_bit() {
                Some(b) => b,
                None => return None,
            };
            proof {
                lemma_bit_at_is_bit(data, (start + i) as nat);
            }
            result = result * 2 + if bit { 1 } else { 0 };
            i += 1;
        }
        Some(result)
    }

    pub fn read_bits_signed(&mut self, n: u32) -> (r: Option<i32>)
        requires
            old(self).wf(),
        ensures
            final(self).wf(),
            final(self).bytes() == old(self).bytes(),
            n <= 32 && n <= old(self).remaining() ==> r == Some(
                signed_value(bits_value(old(self).bytes(), old(self).pos(), n as nat), n as nat)
                    as i32,
            ) && final(self).pos() == old(self).pos() + n,
            !(n <= 32 && n <= old(self).remaining()) ==> r is None && *final(self) == *old(self),
    {
        let ghost v = bits_value(self.bytes(), self.pos(), n as nat);
        let val = match self.read_bits(n) {
            Some(x) => x,
            None => return None,
        };
        if n == 0 {
            return Some(0);
        }
        proof {
            lemma_bits_value_bound(old(self).bytes(), old(self).pos(), n as nat);
            lemma_pow2_unfold(n as nat);
            vstd::bits::lemma_u64_pow2_no_overflow(n as nat);
            vstd::arithmetic::power2::lemma2_to64();
            if n < 32 {
                vstd::arithmetic::power2::lemma_pow2_strictly_increases((n - 1) as nat, 31);
                vstd::arithmetic::power2::lemma_pow2_strictly_increases(n as nat, 32);
            }
            lemma_u64_shl_is_mul(1, n as u64);
        }
        let full: u64 = 1u64 << n as u64;
        let half: u64 = full / 2;
        if val as u64 >= half {
            Some((val as i64 - full as i64) as i32)
        } else {
            Some(val as i32)
        }
    }

    pub fn align_to_byte(&mut self)
        requires
            old(self).wf(),
            (old(self).pos() + 7) / 8 * 8 <= usize::MAX,
        ensures
            final(self).wf(),
            final(self).bytes() == old(self).bytes(),
            final(self).pos() == (old(self).pos() + 7) / 8 * 8,
    {
        if self.bit_pos != 0 {
            self.bit_pos = 0;
            self.byte_pos += 1;
        }
    }

    pub fn set_position(&mut self, bit_position: usize)
        requires
            old(self).wf(),
        ensures
            final(self).wf(),
            final(self).bytes() == old(self).bytes(),
            final(self).pos() == bit_position,
    {
        self.byte_pos = bit_position / 8;
        self.bit_pos = (bit_position % 8) as u8;
    }
}

} // verus!
