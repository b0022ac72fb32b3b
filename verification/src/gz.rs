//! The top-level driver: split a gzip member into header, DEFLATE payload
//! and trailer, inflate the payload, and check the decoded output against
//! the trailer's CRC-32 and size fields.

use vstd::prelude::*;

use crate::crc32;
use crate::crc32::spec_crc32;
use crate::cvec::CVec;
use crate::gz_reader::GzBitReader;
use crate::header::{parse_header, spec_header_len, spec_header_ok};
use crate::inflate::{inflate, spec_inflate_blocks};

verus! {

/// Every gzip member holds at least the ten-byte fixed header and the
/// eight-byte trailer.
pub const GZIP_MIN_LEN: usize = 18;

const GZIP_FILESIZE_OFFSET: usize = 4;

const GZIP_CRC_OFFSET: usize = 8;

const GZIP_FOOTER_LEN: usize = 8;

/// A four-byte little-endian field.
pub open spec fn spec_le32(data: Seq<u8>, i: int) -> u32 {
    (data[i] + 256 * (data[i + 1] as int) + 65536 * (data[i + 2] as int) + 16777216 * (
    data[i + 3] as int)) as u32
}

/// The trailer's CRC-32 of the uncompressed bytes.
pub open spec fn spec_trailer_crc(data: Seq<u8>) -> u32 {
    spec_le32(data, data.len() - 8)
}

/// The trailer's uncompressed-size field, the size reduced modulo two to
/// the thirty-second.
pub open spec fn spec_trailer_isize(data: Seq<u8>) -> u32 {
    spec_le32(data, data.len() - 4)
}

/// What decompressing a gzip member yields: the header must parse, the
/// DEFLATE payload between header and trailer must inflate, and the
/// decoded bytes must match the trailer's CRC-32 and size fields; the
/// result is then exactly the inflated byte sequence.
pub open spec fn spec_decompress(data: Seq<u8>) -> Option<Seq<u8>> {
    if data.len() < 18 {
        None
    } else if !spec_header_ok(data) {
        None
    } else {
        let h = spec_header_len(data).unwrap();
        if h + 1 > data.len() - 8 {
            None
        } else {
            let payload = data.subrange(h, data.len() - 8);
            match spec_inflate_blocks(payload, 0, Seq::empty(), 8 * (payload.len() as int)) {
                None => None,
                Some(p) => {
                    if spec_crc32(p.0) == spec_trailer_crc(data) && (p.0.len() as int)
                        % 0x1_0000_0000 == spec_trailer_isize(data) {
                        Some(p.0)
                    } else {
                        None
                    }
                },
            }
        }
    }
}

/// A successful decompression always satisfies the trailer: the output's
/// CRC-32 equals the trailer's CRC field, and the output's length reduced
/// modulo two to the thirty-second equals the trailer's size field.
pub proof fn lemma_decompress_trailer(data: Seq<u8>)
    requires
        spec_decompress(data) is Some,
    ensures
        spec_crc32(spec_decompress(data).unwrap()) == spec_trailer_crc(data),
        (spec_decompress(data).unwrap().len() as int) % 0x1_0000_0000 == spec_trailer_isize(data),
{
}

/// A valid gzip member decompresses to exactly its original bytes: when
/// the header parses, the payload between header and trailer inflates to
/// `x`, and the trailer's CRC-32 and size fields match `x`, the decoder
/// returns `x`.
pub proof fn lemma_decompress_returns_original(data: Seq<u8>, x: Seq<u8>)
    requires
        data.len() >= 18,
        spec_header_ok(data),
        spec_header_len(data).unwrap() + 1 <= data.len() - 8,
        ({
            let payload = data.subrange(spec_header_len(data).unwrap(), data.len() - 8);
            spec_inflate_blocks(payload, 0, Seq::empty(), 8 * (payload.len() as int)) matches Some(
                p,
            ) && p.0 == x
        }),
        spec_crc32(x) == spec_trailer_crc(data),
        (x.len() as int) % 0x1_0000_0000 == spec_trailer_isize(data),
    ensures
        spec_decompress(data) == Some(x),
{
}

/// Read the four-byte little-endian field at `i`.
fn read_le32(buffer: &CVec<u8>, i: usize) -> (r: u32)
    requires
        i + 4 <= buffer@.len(),
    ensures
        r == spec_le32(buffer@, i as int),
{
    let _n = buffer.len();
    (buffer.get(i) as u32) + 256 * (buffer.get(i + 1) as u32) + 65536 * (buffer.get(i + 2) as u32)
        + 16777216 * (buffer.get(i + 3) as u32)
}

/// The declared length of the uncompressed output, from the trailer.
fn get_uncompressed_len(buffer: &CVec<u8>) -> (r: usize)
    requires
        buffer@.len() >= GZIP_MIN_LEN,
    ensures
        r == spec_trailer_isize(buffer@) as usize,
{
    read_le32(buffer, buffer.len() - GZIP_FILESIZE_OFFSET) as usize
}

/// The expected CRC-32 of the uncompressed output, from the trailer.
fn get_crc(buffer: &CVec<u8>) -> (r: u32)
    requires
        buffer@.len() >= GZIP_MIN_LEN,
    ensures
        r == spec_trailer_crc(buffer@),
{
    read_le32(buffer, buffer.len() - GZIP_CRC_OFFSET)
}

/// Verify that the CRC-32 of the decoded output matches the trailer.
fn check_crc(buffer: &CVec<u8>, crc: u32) -> (r: bool)
    ensures
        r == (spec_crc32(buffer@) == crc),
{
    crc32::sum(buffer.as_slice()) == crc
}

/// Inflate a raw DEFLATE payload into `out_buf`.  Fails on an empty
/// payload or whenever the block loop fails; on success `out_buf` has
/// grown by exactly the decoded bytes.
pub fn decompress_raw(buffer: Vec<u8>, out_buf: &mut CVec<u8>) -> (r: Option<()>)
    ensures
        buffer@.len() == 0 ==> r is None,
        buffer@.len() > 0 ==> match spec_inflate_blocks(
            buffer@,
            0,
            old(out_buf)@,
            8 * (buffer@.len() as int),
        ) {
            Some(p) => r is Some && final(out_buf)@ == p.0,
            None => r is None,
        },
{
    let mut gz_reader = match GzBitReader::new(buffer) {
        Some(g) => g,
        None => {
            return None;
        },
    };
    inflate(&mut gz_reader, out_buf)
}

/// Decompress a gzip member: parse the header, inflate the DEFLATE
/// payload, and return the decoded bytes after they pass the trailer's
/// CRC-32 and size checks.  Any failure aborts the whole decode with
/// `None`; no partial output is returned.
pub fn decompress_gz(buffer: CVec<u8>) -> (r: Option<CVec<u8>>)
    ensures
        match spec_decompress(buffer@) {
            Some(o) => r matches Some(v) && v@ == o,
            None => r is None,
        },
{
    if buffer.len() < GZIP_MIN_LEN {
        return None;
    }
    let out_len = get_uncompressed_len(&buffer);
    let crc = get_crc(&buffer);
    let header = match parse_header(&buffer) {
        Some(h) => h,
        None => {
            return None;
        },
    };
    let payload_end = buffer.len() - GZIP_FOOTER_LEN;
    if header.header_len >= payload_end {
        return None;
    }
    let mut payload: Vec<u8> = Vec::new();
    let mut i: usize = header.header_len;
    while i < payload_end
        invariant
            header.header_len <= i <= payload_end,
            payload_end <= buffer@.len(),
            payload@ == buffer@.subrange(header.header_len as int, i as int),
        decreases payload_end - i,
    {
        proof {
            assert(buffer@.subrange(header.header_len as int, i + 1) =~= buffer@.subrange(
                header.header_len as int,
                i as int,
            ).push(buffer@[i as int]));
        }
        payload.push(buffer.get(i));
        i += 1;
    }
    // The trailer's size field is untrusted input: use it only as an
    // advisory capacity hint, capped so a corrupt field cannot force a
    // huge allocation.
    let hint: usize = if out_len > 0x100000 {
        0x100000
    } else {
        out_len
    };
    let mut out_buf = match CVec::<u8>::with_capacity(hint) {
        Some(v) => v,
        None => {
            return None;
        },
    };
    match decompress_raw(payload, &mut out_buf) {
        Some(_) => {},
        None => {
            return None;
        },
    }
    if !check_crc(&out_buf, crc) {
        return None;
    }
    let out_mod: u32 = ((out_buf.len() as u64) % 0x1_0000_0000) as u32;
    if out_mod != (out_len as u32) {
        return None;
    }
    Some(out_buf)
}

} // verus!
