//! Byte sinks and the endian-aware primitives written on top of them.

use crate::io::{IoError, IoErrorKind, IoResult};
use vstd::prelude::*;

verus! {

/// The `n` bytes of the value `v` (taken modulo `256^n`), least significant first.
pub open spec fn le_bytes(v: nat, n: nat) -> Seq<u8>
    decreases n,
{
    if n == 0 {
        Seq::empty()
    } else {
        seq![(v % 256) as u8] + le_bytes(v / 256, (n - 1) as nat)
    }
}

/// The `n` bytes of the value `v` (taken modulo `256^n`), most significant first.
pub open spec fn be_bytes(v: nat, n: nat) -> Seq<u8> {
    le_bytes(v, n).reverse()
}

/// The bit pattern of a signed value of `bits` bits, read as unsigned.
pub open spec fn unsigned_bits(v: int, bits: nat) -> nat {
    if v < 0 {
        (v + vstd::arithmetic::power2::pow2(bits)) as nat
    } else {
        v as nat
    }
}

/// What a whole-buffer write leaves behind: on success the sink holds
/// `before` followed by all of `bytes`; on failure, `before` followed by some
/// prefix of `bytes`.
pub open spec fn write_outcome(r: IoResult<()>, before: Seq<u8>, after: Seq<u8>, bytes: Seq<u8>) -> bool {
    match r {
        Ok(_) => after == before + bytes,
        Err(_) => exists|k: int|
            #![trigger bytes.subrange(0, k)]
            0 <= k <= bytes.len() && after == before + bytes.subrange(0, k),
    }
}

pub proof fn lemma_le_bytes_len(v: nat, n: nat)
    ensures
        le_bytes(v, n).len() == n,
    decreases n,
{
    if n > 0 {
        lemma_le_bytes_len(v / 256, (n - 1) as nat);
    }
}

/// The bytes of `v`, least significant first.
pub(crate) fn le_bytes_of(v: u64, n: usize) -> (r: Vec<u8>)
    requires
        n <= 8,
    ensures
        r@ == le_bytes(v as nat, n as nat),
{
    let mut out: Vec<u8> = Vec::new();
    let mut x: u64 = v;
    let mut i: usize = 0;
    while i < n
        invariant
            i <= n,
            le_bytes(v as nat, n as nat) == out@ + le_bytes(x as nat, (n - i) as nat),
        decreases n - i,
    {
        proof {
            assert(le_bytes(x as nat, (n - i) as nat) == seq![(x % 256) as u8] + le_bytes(
                (x / 256) as nat,
                (n - i - 1) as nat,
            ));
            assert(out@ + le_bytes(x as nat, (n - i) as nat) =~= out@.push((x % 256) as u8)
                + le_bytes((x / 256) as nat, (n - i - 1) as nat));
        }
        out.push((x % 256) as u8);
        x = x / 256;
        i += 1;
    }
    proof {
        assert(le_bytes(x as nat, 0) =~= Seq::<u8>::empty());
        assert(out@ + Seq::<u8>::empty() =~= out@);
    }
    out
}

/// The bytes of `v`, most significant first.
fn be_bytes_of(v: u64, n: usize) -> (r: Vec<u8>)
    requires
        n <= 8,
    ensures
        r@ == be_bytes(v as nat, n as nat),
{
    let le = le_bytes_of(v, n);
    proof {
        lemma_le_bytes_len(v as nat, n as nat);
    }
    let mut out: Vec<u8> = Vec::new();
    let mut j: usize = 0;
    while j < n
        invariant
            j <= n,
            le@.len() == n,
            le@ == le_bytes(v as nat, n as nat),
            out@ =~= le@.reverse().subrange(0, j as int),
        decreases n - j,
    {
        out.push(le[n - 1 - j]);
        j += 1;
    }
    proof {
        assert(le@.reverse().subrange(0, n as int) =~= le@.reverse());
    }
    out
}

/// A sink of bytes. Its model is the sequence of all bytes it has accepted.
pub trait MediaWrite {
    spec fn accepted(&self) -> Seq<u8>;

    /// The sink takes every write whole and never fails, now and after any
    /// write or flush.
    spec fn accepts_all(&self) -> bool;

    /// Hands over a prefix of `buf`, possibly empty, and says how long it was.
    /// A failed write accepts nothing.
    fn write(&mut self, buf: &[u8]) -> (r: IoResult<usize>)
        ensures
            match r {
                Ok(n) => n <= buf@.len() && final(self).accepted() == old(self).accepted()
                    + buf@.subrange(0, n as int),
                Err(_) => final(self).accepted() == old(self).accepted(),
            },
            old(self).accepts_all() ==> r == Ok::<usize, IoError>(buf@.len() as usize)
                && final(self).accepts_all(),
    ;

    fn flush(&mut self) -> (r: IoResult<()>)
        ensures
            final(self).accepted() == old(self).accepted(),
            old(self).accepts_all() ==> r is Ok && final(self).accepts_all(),
    ;
}

/// How many interrupted writes in a row `write_all` retries before it gives
/// the interruption to its caller.
pub const INTERRUPT_RETRIES: u32 = 1000;

/// What `write_all` does after one call of `write`.
#[derive(Debug, Clone, Copy)]
pub enum WriteStep {
    /// The sink took this many bytes; go on after them.
    Advance(usize),
    /// The write was interrupted; issue it again.
    Retry,
    /// Stop with this error.
    Fail(IoError),
}

/// Decides the next step of `write_all` from the result of one `write`,
/// after `interrupts` interrupted writes in a row: a write that took nothing
/// is a write-zero error, a write that took bytes moves on by them, an
/// interruption is retried up to `INTERRUPT_RETRIES` times in a row, and any
/// other error is handed back unchanged.
pub fn next_write_step(result: IoResult<usize>, interrupts: u32) -> (r: WriteStep)
    ensures
        match result {
            Ok(n) => if n == 0 {
                r == WriteStep::Fail(IoError { kind: IoErrorKind::WriteZero, os_code: None })
            } else {
                r == WriteStep::Advance(n)
            },
            Err(e) => if e.kind == IoErrorKind::Interrupted && interrupts < INTERRUPT_RETRIES {
                r == WriteStep::Retry
            } else {
                r == WriteStep::Fail(e)
            },
        },
{
    match result {
        Ok(n) => if n == 0 {
            WriteStep::Fail(IoError::write_zero())
        } else {
            WriteStep::Advance(n)
        },
        Err(e) => if e.kind == IoErrorKind::Interrupted && interrupts < INTERRUPT_RETRIES {
            WriteStep::Retry
        } else {
            WriteStep::Fail(e)
        },
    }
}

/// Whole-buffer and fixed-width writes for every sink.
pub trait WritePrimitives: MediaWrite {
    /// Writes all of `buf`, re-issuing short writes and retrying interrupted
    /// ones, as `next_write_step` decides after each `write`. On success the
    /// sink has accepted exactly `buf`; on failure it has accepted some prefix
    /// of it. An empty buffer needs no write and succeeds; a sink that
    /// accepts everything always succeeds.
    fn write_all(&mut self, buf: &[u8]) -> (r: IoResult<()>)
        ensures
            write_outcome(r, old(self).accepted(), final(self).accepted(), buf@),
            buf@.len() == 0 ==> r is Ok,
            old(self).accepts_all() ==> r is Ok && final(self).accepts_all(),
    {
        let mut written: usize = 0;
        let mut interrupts: u32 = 0;
        let ghost start = self.accepted();
        let ghost all = self.accepts_all();
        while written < buf.len()
            invariant
                written <= buf@.len(),
                interrupts <= INTERRUPT_RETRIES,
                start == old(self).accepted(),
                all == old(self).accepts_all(),
                all ==> self.accepts_all(),
                self.accepted() == start + buf@.subrange(0, written as int),
            decreases buf@.len() - written, INTERRUPT_RETRIES - interrupts,
        {
            let rest = &buf[written..buf.len()];
            let result = self.write(rest);
            proof {
                if let Ok(n) = result {
                    assert(buf@.subrange(0, written as int) + rest@.subrange(0, n as int)
                        =~= buf@.subrange(0, written + n));
                }
            }
            match next_write_step(result, interrupts) {
                WriteStep::Advance(n) => {
                    written += n;
                    interrupts = 0;
                },
                WriteStep::Retry => {
                    interrupts += 1;
                },
                WriteStep::Fail(e) => {
                    proof {
                        if result is Ok {
                            assert(rest@.subrange(0, 0) =~= Seq::<u8>::empty());
                        }
                        assert(self.accepted() == start + buf@.subrange(0, written as int));
                    }
                    return Err(e);
                },
            }
        }
        proof {
            assert(buf@.subrange(0, buf@.len() as int) =~= buf@);
        }
        Ok(())
    }

    fn write_u8(&mut self, value: u8) -> (r: IoResult<()>)
        ensures
            old(self).accepts_all() ==> r is Ok && final(self).accepts_all(),
            write_outcome(r, old(self).accepted(), final(self).accepted(), le_bytes(value as nat, 1)),
    {
        let pattern: u64 = value as u64;
        let bytes = le_bytes_of(pattern, 1);
        self.write_all(bytes.as_slice())
    }

    fn write_u16_be(&mut self, value: u16) -> (r: IoResult<()>)
        ensures
            old(self).accepts_all() ==> r is Ok && final(self).accepts_all(),
            write_outcome(r, old(self).accepted(), final(self).accepted(), be_bytes(value as nat, 2)),
    {
        let pattern: u64 = value as u64;
        let bytes = be_bytes_of(pattern, 2);
        self.write_all(bytes.as_slice())
    }

    fn write_u16_le(&mut self, value: u16) -> (r: IoResult<()>)
        ensures
            old(self).accepts_all() ==> r is Ok && final(self).accepts_all(),
            write_outcome(r, old(self).accepted(), final(self).accepted(), le_bytes(value as nat, 2)),
    {
        let pattern: u64 = value as u64;
        let bytes = le_bytes_of(pattern, 2);
        self.write_all(bytes.as_slice())
    }

    fn write_u32_be(&mut self, value: u32) -> (r: IoResult<()>)
        ensures
            old(self).accepts_all() ==> r is Ok && final(self).accepts_all(),
            write_outcome(r, old(self).accepted(), final(self).accepted(), be_bytes(value as nat, 4)),
    {
        let pattern: u64 = value as u64;
        let bytes = be_bytes_of(pattern, 4);
        self.write_all(bytes.as_slice())
    }

    fn write_u32_le(&mut self, value: u32) -> (r: IoResult<()>)
        ensures
            old(self).accepts_all() ==> r is Ok && final(self).accepts_all(),
            write_outcome(r, old(self).accepted(), final(self).accepted(), le_bytes(value as nat, 4)),
    {
        let pattern: u64 = value as u64;
        let bytes = le_bytes_of(pattern, 4);
        self.write_all(bytes.as_slice())
    }

    fn write_u64_be(&mut self, value: u64) -> (r: IoResult<()>)
        ensures
            old(self).accepts_all() ==> r is Ok && final(self).accepts_all(),
            write_outcome(r, old(self).accepted(), final(self).accepted(), be_bytes(value as nat, 8)),
    {
        let pattern: u64 = value as u64;
        let bytes = be_bytes_of(pattern, 8);
        self.write_all(bytes.as_slice())
    }

    fn write_u64_le(&mut self, value: u64) -> (r: IoResult<()>)
        ensures
            old(self).accepts_all() ==> r is Ok && final(self).accepts_all(),
            write_outcome(r, old(self).accepted(), final(self).accepted(), le_bytes(value as nat, 8)),
    {
        let pattern: u64 = value as u64;
        let bytes = le_bytes_of(pattern, 8);
        self.write_all(bytes.as_slice())
    }

    fn write_i8(&mut self, value: i8) -> (r: IoResult<()>)
        ensures
            old(self).accepts_all() ==> r is Ok && final(self).accepts_all(),
            write_outcome(r, old(self).accepted(), final(self).accepted(), le_bytes(unsigned_bits(value as int, 8), 1)),
    {
        proof {
            vstd::arithmetic::power2::lemma2_to64();
        }
        let pattern: u64 = if value < 0 {
            (value as i128 + 256i128) as u64
        } else {
            value as u64
        };
        let bytes = le_bytes_of(pattern, 1);
        self.write_all(bytes.as_slice())
    }

    fn write_i16_be(&mut self, value: i16) -> (r: IoResult<()>)
        ensures
            old(self).accepts_all() ==> r is Ok && final(self).accepts_all(),
            write_outcome(r, old(self).accepted(), final(self).accepted(), be_bytes(unsigned_bits(value as int, 16), 2)),
    {
        proof {
            vstd::arithmetic::power2::lemma2_to64();
        }
        let pattern: u64 = if value < 0 {
            (value as i128 + 65536i128) as u64
        } else {
            value as u64
        };
        let bytes = be_bytes_of(pattern, 2);
        self.write_all(bytes.as_slice())
    }

    fn write_i16_le(&mut self, value: i16) -> (r: IoResult<()>)
        ensures
            old(self).accepts_all() ==> r is Ok && final(self).accepts_all(),
            write_outcome(r, old(self).accepted(), final(self).accepted(), le_bytes(unsigned_bits(value as int, 16), 2)),
    {
        proof {
            vstd::arithmetic::power2::lemma2_to64();
        }
        let pattern: u64 = if value < 0 {
            (value as i128 + 65536i128) as u64
        } else {
            value as u64
        };
        let bytes = le_bytes_of(pattern, 2);
        self.write_all(bytes.as_slice())
    }

    fn write_i32_be(&mut self, value: i32) -> (r: IoResult<()>)
        ensures
            old(self).accepts_all() ==> r is Ok && final(self).accepts_all(),
            write_outcome(r, old(self).accepted(), final(self).accepted(), be_bytes(unsigned_bits(value as int, 32), 4)),
    {
        proof {
            vstd::arithmetic::power2::lemma2_to64();
        }
        let pattern: u64 = if value < 0 {
            (value as i128 + 4294967296i128) as u64
        } else {
            value as u64
        };
        let bytes = be_bytes_of(pattern, 4);
        self.write_all(bytes.as_slice())
    }

    fn write_i32_le(&mut self, value: i32) -> (r: IoResult<()>)
        ensures
            old(self).accepts_all() ==> r is Ok && final(self).accepts_all(),
            write_outcome(r, old(self).accepted(), final(self).accepted(), le_bytes(unsigned_bits(value as int, 32), 4)),
    {
        proof {
            vstd::arithmetic::power2::lemma2_to64();
        }
        let pattern: u64 = if value < 0 {
            (value as i128 + 4294967296i128) as u64
        } else {
            value as u64
        };
        let bytes = le_bytes_of(pattern, 4);
        self.write_all(bytes.as_slice())
    }

    fn write_i64_be(&mut self, value: i64) -> (r: IoResult<()>)
        ensures
            old(self).accepts_all() ==> r is Ok && final(self).accepts_all(),
            write_outcome(r, old(self).accepted(), final(self).accepted(), be_bytes(unsigned_bits(value as int, 64), 8)),
    {
        proof {
            vstd::arithmetic::power2::lemma2_to64();
        }
        let pattern: u64 = if value < 0 {
            (value as i128 + 18446744073709551616i128) as u64
        } else {
            value as u64
        };
        let bytes = be_bytes_of(pattern, 8);
        self.write_all(bytes.as_slice())
    }

    fn write_i64_le(&mut self, value: i64) -> (r: IoResult<()>)
        ensures
            old(self).accepts_all() ==> r is Ok && final(self).accepts_all(),
            write_outcome(r, old(self).accepted(), final(self).accepted(), le_bytes(unsigned_bits(value as int, 64), 8)),
    {
        proof {
            vstd::arithmetic::power2::lemma2_to64();
        }
        let pattern: u64 = if value < 0 {
            (value as i128 + 18446744073709551616i128) as u64
        } else {
            value as u64
        };
        let bytes = le_bytes_of(pattern, 8);
        self.write_all(bytes.as_slice())
    }
}

impl<T: MediaWrite> WritePrimitives for T {

}

/// A growable buffer is a sink that accepts every write whole.
impl MediaWrite for Vec<u8> {
    open spec fn accepted(&self) -> Seq<u8> {
        self@
    }

    open spec fn accepts_all(&self) -> bool {
        true
    }

    fn write(&mut self, buf: &[u8]) -> (r: IoResult<usize>)
        ensures
            r == Ok::<usize, IoError>(buf@.len() as usize),
            final(self)@ == old(self)@ + buf@,
    {
        let ghost before = self@;
        let mut i: usize = 0;
        while i < buf.len()
            invariant
                i <= buf@.len(),
                self@ =~= before + buf@.subrange(0, i as int),
            decreases buf@.len() - i,
        {
            self.push(buf[i]);
            i += 1;
        }
        proof {
            assert(buf@.subrange(0, buf@.len() as int) =~= buf@);
        }
        Ok(buf.len())
    }

    fn flush(&mut self) -> (r: IoResult<()>)
        ensures
            r == Ok::<(), IoError>(()),
    {
        Ok(())
    }
}

/// An owner of a writer of the standard library, which lends it out and
/// gives it back. The writer is held as it was handed over: this type
/// neither reads nor changes it.
pub struct StdWriteAdapter<W> {
    inner: W,
}

impl<W> StdWriteAdapter<W> {
    /// The writer held.
    pub closed spec fn inner_view(&self) -> W {
        self.inner
    }

    pub fn new(inner: W) -> (r: Self)
        ensures
            r.inner_view() == inner,
    {
        StdWriteAdapter { inner }
    }

    pub fn into_inner(self) -> (r: W)
        ensures
            r == self.inner_view(),
    {
        self.inner
    }

    pub fn get_ref(&self) -> (r: &W)
        ensures
            *r == self.inner_view(),
    {
        &self.inner
    }

    pub fn get_mut(&mut self) -> (r: &mut W)
        ensures
            *r == old(self).inner_view(),
            final(self).inner_view() == *final(r),
    {
        &mut self.inner
    }
}

} // verus!
