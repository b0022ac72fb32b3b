//! Bit-level reader over the DEFLATE payload.
//!
//! The payload is an ordered sequence of bits, least-significant first
//! within each byte.  The reader keeps a byte cursor, a current-byte
//! register, and a single-bit mask marking which bit of that register comes
//! next; a mask of zero means "refill before the next read".

use vstd::prelude::*;

verus! {

/// Bit `k` of the payload's bit sequence: bit `k % 8` (counting from the
/// least significant) of byte `k / 8`.
pub open spec fn stream_bit(data: Seq<u8>, k: int) -> u32
    recommends
        0 <= k < 8 * data.len(),
{
    ((data[k / 8] as u32) >> ((k % 8) as u32)) & 1
}

/// The integer assembled from `n` stream bits starting at position `k`: the
/// first bit pulled lands in bit position 0 of the result.
pub open spec fn bits_value(data: Seq<u8>, k: int, n: int) -> u32
    decreases n,
{
    if n <= 0 {
        0
    } else {
        bits_value(data, k, n - 1) | (stream_bit(data, k + n - 1) << ((n - 1) as u32))
    }
}

/// Which bit of the current byte a one-bit mask selects.
pub open spec fn mask_index(m: u8) -> u32 {
    if m == 1 {
        0
    } else if m == 2 {
        1
    } else if m == 4 {
        2
    } else if m == 8 {
        3
    } else if m == 16 {
        4
    } else if m == 32 {
        5
    } else if m == 64 {
        6
    } else {
        7
    }
}

/// The masks that select a single bit.
pub open spec fn is_mask(m: u8) -> bool {
    m == 1 || m == 2 || m == 4 || m == 8 || m == 16 || m == 32 || m == 64 || m == 128
}

/// How a one-bit mask reads a bit out of the byte register, and how it
/// moves to the next bit.
proof fn lemma_mask_step(buf: u8, m: u8)
    by (bit_vector)
    requires
        is_mask(m),
    ensures
        ((buf & m) > 0) == ((((buf as u32) >> mask_index(m)) & 1) == 1),
        (((buf as u32) >> mask_index(m)) & 1) <= 1,
        m != 128 ==> is_mask(m << 1) && mask_index(m << 1) == mask_index(m) + 1,
        m == 128 ==> m << 1 == 0,
{
}

/// Oring in a zero value leaves the assembled value unchanged.
proof fn lemma_or_zero(a: u32, s: u32)
    by (bit_vector)
    ensures
        a | (0u32 << s) == a,
{
}

/// Shifted-or decomposition used to split an assembled value at a bit
/// position.
proof fn lemma_or_shift(a: u32, b: u32, x: u32, s: u32, t: u32)
    by (bit_vector)
    requires
        s + t < 32,
    ensures
        (a | (b << s)) | (x << ((s + t) as u32)) == a | ((b | (x << t)) << s),
{
}

/// One assembled bit is at most one.
proof fn lemma_bit_one(x: u32, s: u32)
    by (bit_vector)
    ensures
        ((x >> s) & 1) <= 1,
{
}

/// Growing an assembled value by one bit keeps it under the next power of
/// two.
proof fn lemma_or_bit_bound(a: u32, b: u32, m: u32)
    by (bit_vector)
    requires
        m < 31,
        a < (1u32 << m),
        b <= 1,
    ensures
        (a | (b << m)) < (1u32 << ((m + 1) as u32)),
{
}

/// A stream bit is zero or one.
pub proof fn lemma_stream_bit_one(data: Seq<u8>, k: int)
    ensures
        stream_bit(data, k) <= 1,
{
    lemma_bit_one(data[k / 8] as u32, (k % 8) as u32);
}

/// An `n`-bit value is below two to the `n`.
pub proof fn lemma_bits_value_bound(data: Seq<u8>, k: int, n: int)
    requires
        0 <= n <= 31,
    ensures
        bits_value(data, k, n) < (1u32 << (n as u32)),
    decreases n,
{
    if n == 0 {
        assert(0 < (1u32 << 0u32)) by (bit_vector);
    } else {
        lemma_bits_value_bound(data, k, n - 1);
        let b = data[(k + n - 1) / 8] as u32;
        let s = ((k + n - 1) % 8) as u32;
        lemma_bit_one(b, s);
        lemma_or_bit_bound(bits_value(data, k, n - 1), stream_bit(data, k + n - 1), (n - 1) as u32);
    }
}

/// Reads the gzip payload bit by bit.
pub struct GzBitReader {
    data: Vec<u8>,
    pos: usize,
    buf: u8,
    mask: u8,
}

impl GzBitReader {
    /// The payload bytes the reader walks over.
    pub closed spec fn bytes(&self) -> Seq<u8> {
        self.data@
    }

    /// Total number of bits the payload holds.
    pub open spec fn total_bits(&self) -> int {
        8 * (self.bytes().len() as int)
    }

    /// The reader's invariant: the byte cursor is past the register byte,
    /// and the mask is either zero (refill pending) or a power of two
    /// selecting the next bit of the register.
    pub closed spec fn wf(&self) -> bool {
        &&& 1 <= self.pos <= self.data@.len()
        &&& (self.mask == 0 || is_mask(self.mask))
        &&& (self.mask != 0 ==> self.buf == self.data@[self.pos - 1])
    }

    /// How many bits have been consumed so far.
    pub closed spec fn consumed(&self) -> int {
        if self.mask == 0 {
            8 * self.pos
        } else {
            8 * (self.pos - 1) + mask_index(self.mask)
        }
    }

    /// The consumed count never passes the end of the payload.
    pub proof fn lemma_consumed_in_range(&self)
        requires
            self.wf(),
        ensures
            0 <= self.consumed() <= self.total_bits(),
    {
    }

    /// Wrap a payload.  Fails only on an empty payload, which cannot hold
    /// any DEFLATE block.
    pub fn new(data: Vec<u8>) -> (r: Option<GzBitReader>)
        ensures
            data@.len() == 0 ==> r is None,
            data@.len() > 0 ==> (r matches Some(g) && g.wf() && g.bytes() == data@
                && g.consumed() == 0),
    {
        if data.len() == 0 {
            return None;
        }
        let starting_buf = data[0];
        Some(GzBitReader { data, pos: 1, buf: starting_buf, mask: 0x01 })
    }

    /// Deliver the next bit of the stream, 0 or 1, or `None` when the
    /// payload is exhausted.
    #[inline]
    pub fn next_bit(&mut self) -> (r: Option<u32>)
        requires
            old(self).wf(),
        ensures
            final(self).wf(),
            final(self).bytes() == old(self).bytes(),
            old(self).consumed() < old(self).total_bits() ==> (r matches Some(bit)
                && bit == stream_bit(old(self).bytes(), old(self).consumed())
                && final(self).consumed() == old(self).consumed() + 1),
            old(self).consumed() >= old(self).total_bits() ==> (r is None && *final(self)
                == *old(self)),
    {
        if self.mask == 0 {
            if self.pos >= self.data.len() {
                return None;
            }
            self.buf = self.data[self.pos];
            self.pos = self.pos + 1;
            self.mask = 0x01;
        }
        let bit: u32 = if (self.buf & self.mask) > 0 {
            1
        } else {
            0
        };
        proof {
            lemma_mask_step(self.buf, self.mask);
        }
        self.mask = self.mask << 1;
        Some(bit)
    }

    /// Read `count` bits and assemble them with the first bit pulled in the
    /// least significant position, as block header fields require.
    pub fn read_bits(&mut self, count: u32) -> (r: Option<u32>)
        requires
            old(self).wf(),
            count <= 32,
        ensures
            final(self).wf(),
            final(self).bytes() == old(self).bytes(),
            final(self).consumed() >= old(self).consumed(),
            old(self).consumed() + count <= old(self).total_bits() ==> (r matches Some(v)
                && v == bits_value(old(self).bytes(), old(self).consumed(), count as int)
                && final(self).consumed() == old(self).consumed() + count),
            old(self).consumed() + count > old(self).total_bits() ==> (r is None
                && final(self).consumed() == old(self).total_bits()),
    {
        let mut value: u32 = 0;
        let mut i: u32 = 0;
        proof {
            old(self).lemma_consumed_in_range();
        }
        while i < count
            invariant
                self.wf(),
                self.bytes() == old(self).bytes(),
                count <= 32,
                i <= count,
                self.consumed() == old(self).consumed() + i,
                value == bits_value(old(self).bytes(), old(self).consumed(), i as int),
            decreases count - i,
        {
            let bit = match self.next_bit() {
                Some(b) => b,
                None => {
                    proof {
                        self.lemma_consumed_in_range();
                    }
                    return None;
                },
            };
            value = value | (bit << i);
            i = i + 1;
        }
        Some(value)
    }
}

/// The bit reader is a pure function of the consumed-bit count: assembling
/// `n + m` bits starting at position `c` gives the same integer as
/// assembling `n` bits at `c` and `m` further bits at `c + n` and oring the
/// second value in above the first.
pub proof fn lemma_read_split(data: Seq<u8>, c: int, n: int, m: int)
    requires
        0 <= n,
        0 <= m,
        n + m <= 32,
    ensures
        bits_value(data, c, n + m) == bits_value(data, c, n) | (bits_value(data, c + n, m) << (
        n as u32)),
    decreases m,
{
    if m == 0 {
        assert(bits_value(data, c + n, 0) == 0);
        lemma_or_zero(bits_value(data, c, n), n as u32);
    } else {
        lemma_read_split(data, c, n, m - 1);
        let a = bits_value(data, c, n);
        let b = bits_value(data, c + n, m - 1);
        let x = stream_bit(data, c + n + m - 1);
        lemma_or_shift(a, b, x, n as u32, (m - 1) as u32);
        assert(((n as u32 + (m - 1) as u32) as u32) == (n + m - 1) as u32);
    }
}

} // verus!
