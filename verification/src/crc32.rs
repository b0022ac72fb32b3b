//! IEEE CRC-32 (the 802.3 polynomial, reflected form) over a byte buffer,
//! used to check the decoded output against the gzip trailer.

use vstd::prelude::*;

verus! {

/// The reflected IEEE 802.3 polynomial.
pub const IEEE: u32 = 0xedb88320;

/// One step of the bitwise CRC division: shift one bit out, folding the
/// polynomial back in when the dropped bit was set.
pub open spec fn crc_bit_step(v: u32) -> u32 {
    if v & 1 == 1 {
        IEEE ^ (v >> 1)
    } else {
        v >> 1
    }
}

/// `crc_bit_step` applied `n` times.
pub open spec fn crc_rounds(v: u32, n: nat) -> u32
    decreases n,
{
    if n == 0 {
        v
    } else {
        crc_bit_step(crc_rounds(v, (n - 1) as nat))
    }
}

/// The lookup-table entry for index `i`: eight bit steps.
pub open spec fn crc_table_entry(i: u32) -> u32 {
    crc_rounds(i, 8)
}

/// Folding one byte into a running CRC value.
pub open spec fn crc_update(c: u32, b: u8) -> u32 {
    crc_table_entry((c ^ (b as u32)) & 0xff) ^ (c >> 8)
}

/// The running CRC value after folding the first `n` bytes of `s` into
/// `init`.
pub open spec fn crc_fold(init: u32, s: Seq<u8>, n: int) -> u32
    decreases n,
{
    if n <= 0 {
        init
    } else {
        crc_update(crc_fold(init, s, n - 1), s[n - 1])
    }
}

/// The CRC-32 of a byte sequence: initial value `0xffffffff`, every byte
/// folded in, final XOR with `0xffffffff`.
pub open spec fn spec_crc32(s: Seq<u8>) -> u32 {
    crc_fold(0xffffffffu32, s, s.len() as int) ^ 0xffffffff
}

/// A CRC-32 engine: the 256-entry lookup table plus the running value.
struct Crc32 {
    table: Vec<u32>,
    value: u32,
}

impl Crc32 {
    /// The table holds exactly the 256 precomputed entries.
    spec fn wf(&self) -> bool {
        &&& self.table@.len() == 256
        &&& forall|i: int|
            0 <= i < 256 ==> self.table@[i] == crc_table_entry(i as u32)
    }

    /// Precompute the lookup table and start from the initial value.
    fn new() -> (r: Crc32)
        ensures
            r.wf(),
            r.value == 0xffffffffu32,
    {
        let mut table: Vec<u32> = Vec::new();
        let mut i: usize = 0;
        while i < 256
            invariant
                i <= 256,
                table@.len() == i,
                forall|j: int| 0 <= j < i ==> table@[j] == crc_table_entry(j as u32),
            decreases 256 - i,
        {
            let mut v: u32 = i as u32;
            let mut round: usize = 0;
            while round < 8
                invariant
                    round <= 8,
                    v == crc_rounds(i as u32, round as nat),
                decreases 8 - round,
            {
                v = if v & 1 == 1 {
                    IEEE ^ (v >> 1)
                } else {
                    v >> 1
                };
                round += 1;
            }
            table.push(v);
            i += 1;
        }
        Crc32 { table, value: 0xffffffff }
    }

    /// Fold every byte of `buf` into the running value, and return the
    /// finished checksum.
    fn sum(&mut self, buf: &[u8]) -> (r: u32)
        requires
            old(self).wf(),
        ensures
            final(self).wf(),
            final(self).value == crc_fold(old(self).value, buf@, buf@.len() as int),
            r == final(self).value ^ 0xffffffffu32,
    {
        let mut k: usize = 0;
        while k < buf.len()
            invariant
                self.wf(),
                k <= buf@.len(),
                self.value == crc_fold(old(self).value, buf@, k as int),
            decreases buf@.len() - k,
        {
            let b = buf[k];
            let cur = self.value;
            let idx_u32 = (cur ^ (b as u32)) & 0xff;
            proof {
                assert(((cur ^ (b as u32)) & 0xff) < 256) by (bit_vector);
            }
            let idx = idx_u32 as usize;
            self.value = self.table[idx] ^ (cur >> 8);
            k += 1;
        }
        self.value ^ 0xffffffff
    }
}

/// The CRC-32 of `buf`.
pub fn sum(buf: &[u8]) -> (r: u32)
    ensures
        r == spec_crc32(buf@),
{
    let mut c = Crc32::new();
    c.sum(buf)
}

} // verus!
