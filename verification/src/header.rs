//! The gzip container header: magic bytes, compression method, flag byte,
//! and the optional fields the flags announce.  Parsing yields the decoded
//! fields together with the header's byte length, which is where the
//! DEFLATE payload starts.

use vstd::prelude::*;

use crate::cvec::CVec;
use vstd::utf8::{decode_utf8, valid_utf8};

verus! {

/// The header's flag bits.
#[allow(non_snake_case)]
#[derive(Clone, Copy, PartialEq, Eq, Structural, Debug)]
pub struct Flags {
    pub FTEXT: bool,
    pub FHCRC: bool,
    pub FEXTRA: bool,
    pub FNAME: bool,
    pub FCOMMENT: bool,
}

/// The flag bits of the header's flag byte: FTEXT, FHCRC, FEXTRA, FNAME
/// and FCOMMENT in bits zero through four.
pub open spec fn spec_flags(b: u8) -> Flags {
    Flags {
        FTEXT: b & 1 != 0,
        FHCRC: b & 2 != 0,
        FEXTRA: b & 4 != 0,
        FNAME: b & 8 != 0,
        FCOMMENT: b & 16 != 0,
    }
}

impl Flags {
    /// Decode the flag byte.
    pub fn new(flags: u8) -> (r: Flags)
        ensures
            r == spec_flags(flags),
    {
        Flags {
            FTEXT: flags & 1 != 0,
            FHCRC: flags & 2 != 0,
            FEXTRA: flags & 4 != 0,
            FNAME: flags & 8 != 0,
            FCOMMENT: flags & 16 != 0,
        }
    }
}

/// The decoded gzip header.  Optional fields are present exactly when
/// their flag bit is set; `header_len` is the total header size in bytes,
/// which is the offset of the DEFLATE payload.
pub struct GZHeader {
    pub compression_method: u8,
    pub flags: Flags,
    pub mtime: u32,
    pub extra_flags: u8,
    pub os: u8,
    pub extra: Option<(String, Vec<u8>)>,
    pub fname: Option<String>,
    pub comment: Option<String>,
    pub crc: Option<u16>,
    pub header_len: usize,
}

/// A two-byte little-endian field.
pub open spec fn spec_le16(data: Seq<u8>, i: int) -> int {
    data[i] + 256 * (data[i + 1] as int)
}

/// The modification time: a little-endian four-byte field at offset four.
pub open spec fn spec_mtime(data: Seq<u8>) -> u32 {
    (data[4] + 256 * (data[5] as int) + 65536 * (data[6] as int) + 16777216 * (
    data[7] as int)) as u32
}

/// The position after the extra field, when the layout is sound: a
/// two-byte little-endian length, then that many bytes, of which the
/// first two are the subfield id.
pub open spec fn spec_after_extra(data: Seq<u8>, c: int, present: bool) -> Option<int> {
    if !present {
        Some(c)
    } else if c + 2 > data.len() {
        None
    } else {
        let xlen = spec_le16(data, c);
        if xlen < 2 {
            None
        } else if c + 2 + xlen > data.len() {
            None
        } else {
            Some(c + 2 + xlen)
        }
    }
}

/// The position just after the NUL that terminates the string starting at
/// `c`, or `None` when no NUL follows.
pub open spec fn spec_nul_end(data: Seq<u8>, c: int) -> Option<int>
    decreases data.len() - c,
{
    if c < 0 || c >= data.len() {
        None
    } else if data[c] == 0 {
        Some(c + 1)
    } else {
        spec_nul_end(data, c + 1)
    }
}

/// The position after an optional NUL-terminated string field.
pub open spec fn spec_after_string(data: Seq<u8>, c: int, present: bool) -> Option<int> {
    if !present {
        Some(c)
    } else {
        spec_nul_end(data, c)
    }
}

/// The position after the optional two-byte header CRC.
pub open spec fn spec_after_crc(data: Seq<u8>, c: int, present: bool) -> Option<int> {
    if !present {
        Some(c)
    } else if c + 2 > data.len() {
        None
    } else {
        Some(c + 2)
    }
}

/// The total header length: ten fixed bytes, then the optional fields the
/// flag byte announces.  `None` when the magic, the method or the layout
/// is wrong.
pub open spec fn spec_header_len(data: Seq<u8>) -> Option<int> {
    if data.len() < 10 {
        None
    } else if data[0] != 0x1f || data[1] != 0x8b {
        None
    } else if data[2] != 8 {
        None
    } else {
        let f = spec_flags(data[3]);
        match spec_after_extra(data, 10, f.FEXTRA) {
            None => None,
            Some(c1) => match spec_after_string(data, c1, f.FNAME) {
                None => None,
                Some(c2) => match spec_after_string(data, c2, f.FCOMMENT) {
                    None => None,
                    Some(c3) => spec_after_crc(data, c3, f.FHCRC),
                },
            },
        }
    }
}

/// The extra field's two-byte subfield id, starting at `c + 2`.
pub open spec fn spec_extra_id(data: Seq<u8>, c: int) -> Seq<u8> {
    data.subrange(c + 2, c + 4)
}

/// The extra field's payload: everything after the subfield id.
pub open spec fn spec_extra_data(data: Seq<u8>, c: int) -> Seq<u8> {
    data.subrange(c + 4, c + 2 + spec_le16(data, c))
}

/// The bytes of a NUL-terminated string field, the NUL excluded.
pub open spec fn spec_name_bytes(data: Seq<u8>, c: int) -> Seq<u8> {
    data.subrange(c, spec_nul_end(data, c).unwrap() - 1)
}

/// The optional header CRC: the byte at `c` in the high half.
pub open spec fn spec_hcrc(data: Seq<u8>, c: int) -> u16 {
    (256 * (data[c] as int) + data[c + 1]) as u16
}

/// A header parses exactly when its layout is sound and every string field
/// present holds valid UTF-8.
pub open spec fn spec_header_ok(data: Seq<u8>) -> bool {
    &&& spec_header_len(data) is Some
    &&& {
        let f = spec_flags(data[3]);
        let c1 = spec_after_extra(data, 10, f.FEXTRA).unwrap();
        let c2 = spec_after_string(data, c1, f.FNAME).unwrap();
        &&& (f.FEXTRA ==> valid_utf8(spec_extra_id(data, 10)))
        &&& (f.FNAME ==> valid_utf8(spec_name_bytes(data, c1)))
        &&& (f.FCOMMENT ==> valid_utf8(spec_name_bytes(data, c2)))
    }
}

/// Relies on `String::from_utf8`: it returns `Ok` exactly when the bytes
/// are valid UTF-8, yielding the string those bytes encode.
#[verifier::external_body]
fn bytes_to_string(b: Vec<u8>) -> (r: Option<String>)
    ensures
        r is Some <==> valid_utf8(b@),
        r matches Some(s) ==> s@ == decode_utf8(b@),
{
    match String::from_utf8(b) {
        Ok(s) => Some(s),
        Err(_) => None,
    }
}

/// Read the optional extra field at `*pos`.  `Some(None)` when absent,
/// `Some(Some(..))` with the subfield id and payload when sound, `None`
/// on a truncated layout or an id that is not UTF-8.
fn get_extra(present: bool, buffer: &CVec<u8>, pos: &mut usize) -> (r: Option<
    Option<(String, Vec<u8>)>,
>)
    requires
        *old(pos) <= buffer@.len(),
    ensures
        *final(pos) <= buffer@.len(),
        !present ==> r == Some(Option::<(String, Vec<u8>)>::None) && *final(pos) == *old(pos),
        present ==> match spec_after_extra(buffer@, *old(pos) as int, true) {
            None => r is None,
            Some(c) => {
                if valid_utf8(spec_extra_id(buffer@, *old(pos) as int)) {
                    r matches Some(Some(p)) && p.0@ == decode_utf8(
                        spec_extra_id(buffer@, *old(pos) as int),
                    ) && p.1@ == spec_extra_data(buffer@, *old(pos) as int) && *final(pos) == c
                } else {
                    r is None
                }
            },
        },
{
    if !present {
        return Some(None);
    }
    let c = *pos;
    if buffer.len() - c < 2 {
        return None;
    }
    let xlen: usize = (buffer.get(c) as usize) + 256 * (buffer.get(c + 1) as usize);
    if xlen < 2 {
        return None;
    }
    if xlen > buffer.len() - c - 2 {
        return None;
    }
    let mut id_bytes: Vec<u8> = Vec::new();
    id_bytes.push(buffer.get(c + 2));
    id_bytes.push(buffer.get(c + 3));
    proof {
        assert(id_bytes@ =~= spec_extra_id(buffer@, c as int));
    }
    let id = match bytes_to_string(id_bytes) {
        Some(s) => s,
        None => {
            return None;
        },
    };
    let mut data: Vec<u8> = Vec::new();
    let mut i: usize = c + 4;
    let stop = c + 2 + xlen;
    while i < stop
        invariant
            c + 4 <= i <= stop,
            stop == c + 2 + xlen,
            stop <= buffer@.len(),
            data@ == buffer@.subrange(c + 4, i as int),
        decreases stop - i,
    {
        proof {
            assert(buffer@.subrange(c + 4, i + 1) =~= buffer@.subrange(c + 4, i as int).push(
                buffer@[i as int],
            ));
        }
        data.push(buffer.get(i));
        i += 1;
    }
    *pos = stop;
    Some(Some((id, data)))
}

/// Read an optional NUL-terminated string field at `*pos`.  `Some(None)`
/// when absent; `None` when no NUL follows or the bytes are not UTF-8.
fn get_string(present: bool, buffer: &CVec<u8>, pos: &mut usize) -> (r: Option<Option<String>>)
    requires
        *old(pos) <= buffer@.len(),
    ensures
        *final(pos) <= buffer@.len(),
        !present ==> r == Some(Option::<String>::None) && *final(pos) == *old(pos),
        present ==> match spec_nul_end(buffer@, *old(pos) as int) {
            None => r is None,
            Some(c) => {
                if valid_utf8(spec_name_bytes(buffer@, *old(pos) as int)) {
                    r matches Some(Some(s)) && s@ == decode_utf8(
                        spec_name_bytes(buffer@, *old(pos) as int),
                    ) && *final(pos) == c
                } else {
                    r is None
                }
            },
        },
{
    if !present {
        return Some(None);
    }
    let start = *pos;
    let mut str_bytes: Vec<u8> = Vec::new();
    let mut cur = start;
    while cur < buffer.len()
        invariant
            present,
            start == *old(pos),
            *pos == *old(pos),
            start <= cur <= buffer@.len(),
            str_bytes@ == buffer@.subrange(start as int, cur as int),
            spec_nul_end(buffer@, start as int) == spec_nul_end(buffer@, cur as int),
        decreases buffer@.len() - cur,
    {
        let byte = buffer.get(cur);
        if byte == 0 {
            *pos = cur + 1;
            proof {
                assert(spec_nul_end(buffer@, cur as int) == Some(cur + 1int));
                assert(str_bytes@ == spec_name_bytes(buffer@, start as int));
            }
            return match bytes_to_string(str_bytes) {
                Some(s) => Some(Some(s)),
                None => None,
            };
        }
        proof {
            assert(buffer@.subrange(start as int, cur + 1) =~= buffer@.subrange(
                start as int,
                cur as int,
            ).push(buffer@[cur as int]));
        }
        str_bytes.push(byte);
        cur += 1;
    }
    None
}

/// Read the optional two-byte header CRC at `*pos`.
fn get_crc(present: bool, buffer: &CVec<u8>, pos: &mut usize) -> (r: Option<Option<u16>>)
    requires
        *old(pos) <= buffer@.len(),
    ensures
        *final(pos) <= buffer@.len(),
        !present ==> r == Some(Option::<u16>::None) && *final(pos) == *old(pos),
        present ==> match spec_after_crc(buffer@, *old(pos) as int, true) {
            None => r is None,
            Some(c) => r == Some(Some(spec_hcrc(buffer@, *old(pos) as int))) && *final(pos) == c,
        },
{
    if !present {
        return Some(None);
    }
    let c = *pos;
    if buffer.len() - c < 2 {
        return None;
    }
    let crc: u16 = 256 * (buffer.get(c) as u16) + (buffer.get(c + 1) as u16);
    *pos = c + 2;
    Some(Some(crc))
}

/// Parse the gzip header at the start of `buffer`: the magic bytes, the
/// compression method (which must be eight), the flag byte, and the
/// optional fields the flags announce.  Succeeds exactly when the header
/// is sound and every string field present is valid UTF-8; the returned
/// `header_len` is the offset of the DEFLATE payload.
pub fn parse_header(buffer: &CVec<u8>) -> (r: Option<GZHeader>)
    ensures
        r is Some <==> spec_header_ok(buffer@),
        r matches Some(h) ==> {
            let f = spec_flags(buffer@[3]);
            let c1 = spec_after_extra(buffer@, 10, f.FEXTRA).unwrap();
            let c2 = spec_after_string(buffer@, c1, f.FNAME).unwrap();
            &&& h.header_len == spec_header_len(buffer@).unwrap()
            &&& h.compression_method == 8
            &&& h.flags == f
            &&& h.mtime == spec_mtime(buffer@)
            &&& h.extra_flags == buffer@[8]
            &&& h.os == buffer@[9]
            &&& (f.FEXTRA ==> (h.extra matches Some(p) && p.0@ == decode_utf8(
                spec_extra_id(buffer@, 10),
            ) && p.1@ == spec_extra_data(buffer@, 10)))
            &&& (!f.FEXTRA ==> h.extra is None)
            &&& (f.FNAME ==> (h.fname matches Some(s) && s@ == decode_utf8(
                spec_name_bytes(buffer@, c1),
            )))
            &&& (!f.FNAME ==> h.fname is None)
            &&& (f.FCOMMENT ==> (h.comment matches Some(s) && s@ == decode_utf8(
                spec_name_bytes(buffer@, c2),
            )))
            &&& (!f.FCOMMENT ==> h.comment is None)
            &&& (f.FHCRC ==> h.crc == Some(
                spec_hcrc(buffer@, spec_after_string(buffer@, c2, f.FCOMMENT).unwrap()),
            ))
            &&& (!f.FHCRC ==> h.crc is None)
        },
{
    if buffer.len() < 10 {
        return None;
    }
    if buffer.get(0) != 0x1f || buffer.get(1) != 0x8b {
        return None;
    }
    let comp_method = buffer.get(2);
    if comp_method != 8 {
        return None;
    }
    let flags = Flags::new(buffer.get(3));
    let mtime: u32 = (buffer.get(4) as u32) + 256 * (buffer.get(5) as u32) + 65536 * (buffer.get(
        6,
    ) as u32) + 16777216 * (buffer.get(7) as u32);
    let extra_flags = buffer.get(8);
    let os = buffer.get(9);

    let mut pos: usize = 10;
    let extra = match get_extra(flags.FEXTRA, buffer, &mut pos) {
        Some(e) => e,
        None => {
            return None;
        },
    };
    let name = match get_string(flags.FNAME, buffer, &mut pos) {
        Some(n) => n,
        None => {
            return None;
        },
    };
    let comment = match get_string(flags.FCOMMENT, buffer, &mut pos) {
        Some(n) => n,
        None => {
            return None;
        },
    };
    let crc = match get_crc(flags.FHCRC, buffer, &mut pos) {
        Some(n) => n,
        None => {
            return None;
        },
    };

    Some(
        GZHeader {
            compression_method: comp_method,
            flags,
            mtime,
            extra_flags,
            os,
            extra,
            fname: name,
            comment,
            crc,
            header_len: pos,
        },
    )
}

} // verus!
