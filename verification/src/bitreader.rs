//! MSB-first bit extraction from a byte buffer.
//!
//! Bits are taken from 16-bit big-endian words: each refill reads two bytes
//! (synthesizing zeros past the end of the input) and deposits them in a
//! 32-bit staging buffer just below the bits that are still pending. The
//! valid bits always occupy the high `bits_left` positions of `bit_buffer`.
//!
//! Reading past the end of the input is not an error; it yields zero bits.

use vstd::arithmetic::power2::{lemma2_to64, lemma_pow2_strictly_increases, pow2};
use vstd::prelude::*;

verus! {

pub struct BitReader {
    /// Source bytes.
    pub data: Vec<u8>,
    /// Read cursor into `data`; never exceeds `data.len()`.
    pub pos: usize,
    /// Staging buffer; valid bits sit in the top `bits_left` positions.
    pub bit_buffer: u32,
    /// Number of valid bits in `bit_buffer`; at most 32.
    pub bits_left: u32,
    /// Total number of bits handed out so far (accounting only).
    pub consumed: Ghost<nat>,
}

impl BitReader {
    /// Structural invariant of the reader.
    pub open spec fn wf(self) -> bool {
        self.bits_left <= 32 && self.pos <= self.data@.len()
    }

    /// The source byte at index `i`, with zeros synthesized past the end.
    pub open spec fn byte_at(self, i: int) -> u8 {
        if 0 <= i < self.data@.len() {
            self.data@[i]
        } else {
            0
        }
    }

    /// The 16-bit big-endian word formed by the next two source bytes.
    pub open spec fn next_word(self) -> u32 {
        ((self.byte_at(self.pos as int) as int) * 256 + (self.byte_at(self.pos as int + 1) as int)) as u32
    }

    /// State after one refill: the next word is injected just below the
    /// pending bits and the cursor advances over the bytes actually read.
    pub open spec fn spec_fill(self) -> BitReader {
        BitReader {
            pos: if self.pos + 2 <= self.data@.len() {
                (self.pos + 2) as usize
            } else {
                self.data@.len() as usize
            },
            bit_buffer: self.bit_buffer | (self.next_word() << ((16 - self.bits_left) as u32)),
            bits_left: (self.bits_left + 16) as u32,
            ..self
        }
    }

    /// State after refilling until at least `n` bits are pending.
    pub open spec fn spec_ensure(self, n: u32) -> BitReader
        decreases (if self.bits_left < n { 1int } else { 0int }),
            when n <= 32 && self.bits_left <= 32 && (self.bits_left >= n || (self.bits_left
                <= 16 && n <= self.bits_left + 16))
    {
        if self.bits_left >= n {
            self
        } else {
            self.spec_fill().spec_ensure(n)
        }
    }

    /// The value produced by reading `n` bits (for `1 <= n <= 16`).
    pub open spec fn spec_read_value(self, n: u32) -> u32 {
        self.spec_ensure(n).bit_buffer >> ((32 - n) as u32)
    }

    /// The reader state after reading `n` bits (for `1 <= n <= 16`).
    pub open spec fn spec_read_state(self, n: u32) -> BitReader {
        let s = self.spec_ensure(n);
        BitReader {
            bit_buffer: s.bit_buffer << n,
            bits_left: (s.bits_left - n) as u32,
            consumed: Ghost((s.consumed@ + n) as nat),
            ..s
        }
    }

    /// Value and state after an `n`-bit read assembled MSB-first from
    /// chunks, starting from accumulator `acc`.
    pub open spec fn spec_read_many(self, n: u32, acc: u32) -> (u32, BitReader)
        decreases n,
            when self.wf() && n < 32
    {
        if n == 0 {
            (acc, self)
        } else {
            let s1 = if self.bits_left <= 16 {
                self.spec_fill()
            } else {
                self
            };
            let br: u32 = if s1.bits_left < n {
                s1.bits_left
            } else {
                n
            };
            let v2: u32 = (acc << br) | (s1.bit_buffer >> ((32 - br) as u32));
            let s2 = BitReader {
                bit_buffer: s1.bit_buffer << br,
                bits_left: (s1.bits_left - br) as u32,
                consumed: Ghost((s1.consumed@ + br) as nat),
                ..s1
            };
            s2.spec_read_many((n - br) as u32, v2)
        }
    }

    pub fn new(data: Vec<u8>) -> (r: BitReader)
        ensures
            r.wf(),
            r == (BitReader {
                data,
                pos: 0,
                bit_buffer: 0,
                bits_left: 0,
                consumed: Ghost(0nat),
            }),
            r.data@ == data@,
            r.pos == 0,
            r.bit_buffer == 0,
            r.bits_left == 0,
            r.consumed@ == 0,
    {
        BitReader { data, pos: 0, bit_buffer: 0, bits_left: 0, consumed: Ghost(0nat) }
    }

    /// Read two bytes in big-endian order (zeroing past the end of input)
    /// and inject 16 bits into the staging buffer.
    pub fn fill(&mut self)
        requires
            old(self).wf(),
            old(self).bits_left <= 16,
        ensures
            *final(self) == old(self).spec_fill(),
            final(self).wf(),
            final(self).bits_left == old(self).bits_left + 16,
            final(self).data@ == old(self).data@,
            final(self).consumed@ == old(self).consumed@,
    {
        let b0: u8 = if self.pos < self.data.len() {
            let b = self.data[self.pos];
            self.pos = self.pos + 1;
            b
        } else {
            0
        };
        let b1: u8 = if self.pos < self.data.len() {
            let b = self.data[self.pos];
            self.pos = self.pos + 1;
            b
        } else {
            0
        };
        let word: u32 = (b0 as u32) * 256 + (b1 as u32);
        self.bit_buffer = self.bit_buffer | (word << ((16 - self.bits_left) as u32));
        self.bits_left = self.bits_left + 16;
    }

    /// Refill until at least `n` bits are pending. Beyond 16 bits this
    /// can succeed only when one refill suffices: the staging buffer holds
    /// 32 bits and a refill needs 16 bits of room.
    pub fn ensure_bits(&mut self, n: u32)
        requires
            old(self).wf(),
            n <= 32,
            old(self).bits_left >= n || (old(self).bits_left <= 16 && n <= old(self).bits_left
                + 16),
        ensures
            *final(self) == old(self).spec_ensure(n),
            final(self).wf(),
            final(self).bits_left >= n,
            final(self).data@ == old(self).data@,
            final(self).consumed@ == old(self).consumed@,
    {
        while self.bits_left < n
            invariant
                self.wf(),
                old(self).wf(),
                n <= 32,
                self.bits_left >= n || (self.bits_left <= 16 && n <= self.bits_left + 16),
                self.spec_ensure(n) == old(self).spec_ensure(n),
                self.data@ == old(self).data@,
                self.consumed@ == old(self).consumed@,
            decreases (if self.bits_left < n { 1int } else { 0int }),
        {
            self.fill();
        }
    }

    /// The top `n` bits of the staging buffer, without consuming them.
    pub fn peek_bits(&self, n: u32) -> (r: u32)
        requires
            1 <= n <= 32,
        ensures
            r == (self.bit_buffer >> ((32 - n) as u32)),
            n <= 31 ==> r < (1u32 << n),
    {
        proof {
            if n <= 31 {
                lemma_shr_in_range(self.bit_buffer, n);
            }
        }
        self.bit_buffer >> (32 - n)
    }

    /// Discard the top `n` bits of the staging buffer.
    pub fn remove_bits(&mut self, n: u32)
        requires
            old(self).wf(),
            n <= 31,
            n <= old(self).bits_left,
        ensures
            final(self).wf(),
            final(self).bit_buffer == old(self).bit_buffer << n,
            final(self).bits_left == old(self).bits_left - n,
            final(self).pos == old(self).pos,
            final(self).data == old(self).data,
            final(self).data@ == old(self).data@,
            final(self).consumed == Ghost((old(self).consumed@ + n) as nat),
            final(self).consumed@ == old(self).consumed@ + n,
    {
        self.bit_buffer = self.bit_buffer << n;
        self.bits_left = self.bits_left - n;
        proof {
            self.consumed@ = self.consumed@ + n as nat;
        }
    }

    /// Read `n <= 16` bits: refill, peek, drop. Reading zero bits yields
    /// zero and leaves the reader untouched.
    pub fn read_bits(&mut self, n: u32) -> (r: u32)
        requires
            old(self).wf(),
            n <= 16,
        ensures
            final(self).wf(),
            final(self).data@ == old(self).data@,
            final(self).consumed@ == old(self).consumed@ + n,
            r < pow2(n as nat),
            n == 0 ==> *final(self) == *old(self) && r == 0,
            n >= 1 ==> r == old(self).spec_read_value(n) && *final(self) == old(self).spec_read_state(n),
    {
        if n == 0 {
            proof {
                lemma2_to64();
            }
            return 0;
        }
        self.ensure_bits(n);
        let val = self.peek_bits(n);
        self.remove_bits(n);
        proof {
            lemma_shl1_is_pow2(n);
        }
        val
    }

    /// Read an arbitrary number of bits (`n < 32`), assembled MSB-first:
    /// earlier stream bits land in more significant result positions.
    pub fn read_many_bits(&mut self, n: u32) -> (r: u32)
        requires
            old(self).wf(),
            n < 32,
        ensures
            final(self).wf(),
            final(self).data@ == old(self).data@,
            final(self).consumed@ == old(self).consumed@ + n,
            r < pow2(n as nat),
            (r, *final(self)) == old(self).spec_read_many(n, 0),
    {
        if n == 0 {
            proof {
                lemma2_to64();
            }
            return 0;
        }
        let mut val: u32 = 0;
        let mut rem: u32 = n;
        proof {
            assert((1u32 << 0u32) == 1) by (bit_vector);
        }
        while rem > 0
            invariant
                self.wf(),
                old(self).wf(),
                rem <= n,
                n < 32,
                self.data@ == old(self).data@,
                self.consumed@ == old(self).consumed@ + (n - rem),
                val < (1u32 << ((n - rem) as u32)),
                self.spec_read_many(rem, val) == old(self).spec_read_many(n, 0),
            decreases rem,
        {
            if self.bits_left <= 16 {
                self.fill();
            }
            let bitrun: u32 = if self.bits_left < rem {
                self.bits_left
            } else {
                rem
            };
            let chunk = self.peek_bits(bitrun);
            proof {
                lemma_accumulate(val, chunk, (n - rem) as u32, bitrun);
            }
            val = (val << bitrun) | chunk;
            self.remove_bits(bitrun);
            rem = rem - bitrun;
        }
        proof {
            lemma_shl1_is_pow2(n);
        }
        val
    }
}

/// The top `n` bits of a 32-bit buffer are below `2^n`.
proof fn lemma_shr_in_range(b: u32, n: u32)
    by (bit_vector)
    requires
        1 <= n <= 31,
    ensures
        (b >> ((32 - n) as u32)) < (1u32 << n),
{
}

/// Appending a `br`-bit chunk below a `k`-bit accumulator stays within
/// `k + br` bits.
proof fn lemma_accumulate(val: u32, chunk: u32, k: u32, br: u32)
    by (bit_vector)
    requires
        val < (1u32 << k),
        chunk < (1u32 << br),
        k + br <= 31,
        1 <= br,
    ensures
        ((val << br) | chunk) < (1u32 << ((k + br) as u32)),
{
}

/// `1 << n` is `pow2(n)` for shift amounts that fit in a `u32`.
proof fn lemma_shl1_is_pow2(n: u32)
    requires
        n <= 31,
    ensures
        (1u32 << n) == pow2(n as nat),
{
    lemma2_to64();
    if (n as nat) < 31 {
        lemma_pow2_strictly_increases(n as nat, 31);
    }
    vstd::bits::lemma_u32_shl_is_mul(1u32, n);
}

/// Refilling preserves the reader's invariant, touches neither the data
/// nor the consumed count, and reaches at least `n` pending bits.
pub proof fn lemma_ensure_wf(r: BitReader, n: u32)
    requires
        r.wf(),
        n <= 32,
        r.bits_left >= n || (r.bits_left <= 16 && n <= r.bits_left + 16),
    ensures
        r.spec_ensure(n).wf(),
        r.spec_ensure(n).bits_left >= n,
        r.spec_ensure(n).data@ == r.data@,
        r.spec_ensure(n).consumed@ == r.consumed@,
    decreases (if r.bits_left < n { 1int } else { 0int }),
{
    if r.bits_left < n {
        lemma_ensure_wf(r.spec_fill(), n);
    }
}

/// A one-bit read preserves the reader's invariant, keeps the data, and
/// consumes exactly one bit.
pub proof fn lemma_read_state_wf(r: BitReader)
    requires
        r.wf(),
    ensures
        r.spec_read_state(1).wf(),
        r.spec_read_state(1).data@ == r.data@,
        r.spec_read_state(1).consumed@ == r.consumed@ + 1,
{
    lemma_ensure_wf(r, 1);
}

/// Reading past the end of the input returns zeros: once the cursor has
/// reached the end of the data and the staging buffer holds no set bits,
/// every further read yields the value zero (and reading never fails).
pub proof fn lemma_read_past_end_is_zero(r: BitReader, n: u32)
    requires
        r.wf(),
        r.pos == r.data@.len(),
        r.bit_buffer == 0,
        1 <= n <= 16,
    ensures
        r.spec_read_value(n) == 0,
{
    lemma_ensure_keeps_zero(r, n);
    assert((0u32 >> ((32 - n) as u32)) == 0) by (bit_vector);
}

proof fn lemma_ensure_keeps_zero(r: BitReader, n: u32)
    requires
        r.wf(),
        r.pos == r.data@.len(),
        r.bit_buffer == 0,
        n <= 16,
    ensures
        r.spec_ensure(n).bit_buffer == 0,
        r.spec_ensure(n).pos == r.data@.len(),
        r.spec_ensure(n).wf(),
    decreases (if r.bits_left < n { 1int } else { 0int }),
{
    if r.bits_left >= n {
    } else {
        assert(r.next_word() == 0);
        assert(forall|sh: u32| (0u32 << sh) == 0 && (0u32 | (0u32 << sh)) == 0) by (bit_vector);
        lemma_ensure_keeps_zero(r.spec_fill(), n);
    }
}

} // verus!
