use rust_zlib::crc32;
use rust_zlib::cvec::CVec;
use rust_zlib::gz::decompress_gz;

/// Writes a DEFLATE bitstream: bits are packed least-significant first
/// within each byte, and Huffman codewords go in most-significant bit
/// first.
struct BitWriter {
    bytes: Vec<u8>,
    nbits: usize,
}

impl BitWriter {
    fn new() -> BitWriter {
        BitWriter { bytes: Vec::new(), nbits: 0 }
    }

    fn push_bit(&mut self, b: u32) {
        if self.nbits % 8 == 0 {
            self.bytes.push(0);
        }
        if b != 0 {
            let i = self.nbits / 8;
            self.bytes[i] |= 1 << (self.nbits % 8);
        }
        self.nbits += 1;
    }

    fn push_bits_lsb(&mut self, v: u32, n: u32) {
        for i in 0..n {
            self.push_bit((v >> i) & 1);
        }
    }

    fn push_code(&mut self, code: u32, len: u32) {
        for i in (0..len).rev() {
            self.push_bit((code >> i) & 1);
        }
    }
}

/// Canonical codes for a table of code lengths, per the DEFLATE rules.
fn canonical_codes(lens: &[u32]) -> Vec<(u32, u32)> {
    let maxl = *lens.iter().max().unwrap();
    let mut bl_count = vec![0u32; (maxl + 1) as usize];
    for &l in lens {
        if l > 0 {
            bl_count[l as usize] += 1;
        }
    }
    let mut next_code = vec![0u32; (maxl + 2) as usize];
    let mut code = 0u32;
    for bits in 1..=maxl {
        code = (code + bl_count[(bits - 1) as usize]) << 1;
        next_code[bits as usize] = code;
    }
    lens.iter()
        .map(|&l| {
            if l == 0 {
                (0, 0)
            } else {
                let c = next_code[l as usize];
                next_code[l as usize] += 1;
                (c, l)
            }
        })
        .collect()
}

/// The fixed literal/length code lengths.
fn fixed_lens() -> Vec<u32> {
    let mut lens = vec![0u32; 288];
    for s in 0..288 {
        lens[s] = if s <= 143 {
            8
        } else if s <= 255 {
            9
        } else if s <= 279 {
            7
        } else {
            8
        };
    }
    lens
}

/// Wrap a DEFLATE payload in a gzip member whose trailer matches
/// `original`.
fn gzip_wrap(deflate: &[u8], original: &[u8]) -> Vec<u8> {
    let mut v = vec![0x1f, 0x8b, 0x08, 0x00, 0, 0, 0, 0, 0x00, 0x07];
    v.extend_from_slice(deflate);
    v.extend_from_slice(&crc32::sum(original).to_le_bytes());
    v.extend_from_slice(&(original.len() as u32).to_le_bytes());
    v
}

/// A gzip member holding `data` in a single fixed-tree block of literals.
fn fixed_gzip(data: &[u8]) -> Vec<u8> {
    let codes = canonical_codes(&fixed_lens());
    let mut w = BitWriter::new();
    w.push_bit(1); // BFINAL
    w.push_bits_lsb(1, 2); // BTYPE fixed
    for &b in data {
        let (c, l) = codes[b as usize];
        w.push_code(c, l);
    }
    let (c, l) = codes[256];
    w.push_code(c, l);
    gzip_wrap(&w.bytes, data)
}

fn to_cvec(raw: &[u8]) -> CVec<u8> {
    let mut buffer = CVec::with_capacity(raw.len()).unwrap();
    for &byte in raw.iter() {
        buffer.push(byte);
    }
    buffer
}

fn decomp(raw: &[u8]) -> Option<Vec<u8>> {
    decompress_gz(to_cvec(raw)).map(|c| c.as_slice().to_vec())
}

#[test]
fn test_empty_payload() {
    let g = fixed_gzip(b"");
    assert_eq!(g.len(), 20);
    // CRC of the empty sequence is zero.
    assert_eq!(&g[g.len() - 8..g.len() - 4], &[0, 0, 0, 0]);
    assert_eq!(decomp(&g), Some(Vec::new()));
}

#[test]
fn test_single_byte_payload() {
    let g = fixed_gzip(b"a");
    assert_eq!(decomp(&g), Some(b"a".to_vec()));
}

#[test]
fn test_hello_world() {
    let g = fixed_gzip(b"Hello, world!\n");
    let out = decomp(&g).unwrap();
    assert_eq!(out, b"Hello, world!\n".to_vec());
    assert_eq!(crc32::sum(&out), crc32::sum(b"Hello, world!\n"));
}

#[test]
fn test_high_literals() {
    // Literals above 143 use the nine-bit half of the fixed tree.
    let data = [0x00u8, 0x90, 0xff, 0x7f, 0x80];
    let g = fixed_gzip(&data);
    assert_eq!(decomp(&g), Some(data.to_vec()));
}

#[test]
fn test_run_length_back_reference() {
    // One literal 'a' followed by a length-7/distance-1 back-reference:
    // the copy overlaps its own output and expands the byte into a run.
    let codes = canonical_codes(&fixed_lens());
    let mut w = BitWriter::new();
    w.push_bit(1);
    w.push_bits_lsb(1, 2);
    let (c, l) = codes[0x61];
    w.push_code(c, l);
    // Length symbol 261 decodes to length 7 with no extra bits.
    let (c, l) = codes[261];
    w.push_code(c, l);
    // In a fixed block the distance symbol is five raw bits; zero means
    // distance one.
    w.push_bits_lsb(0, 5);
    let (c, l) = codes[256];
    w.push_code(c, l);
    let g = gzip_wrap(&w.bytes, b"aaaaaaaa");
    assert_eq!(decomp(&g), Some(b"aaaaaaaa".to_vec()));
}

#[test]
fn test_two_blocks() {
    // A non-final block followed by a final one; output is concatenated.
    let codes = canonical_codes(&fixed_lens());
    let mut w = BitWriter::new();
    w.push_bit(0);
    w.push_bits_lsb(1, 2);
    for &b in b"ab" {
        let (c, l) = codes[b as usize];
        w.push_code(c, l);
    }
    let (c, l) = codes[256];
    w.push_code(c, l);
    w.push_bit(1);
    w.push_bits_lsb(1, 2);
    for &b in b"cd" {
        let (c, l) = codes[b as usize];
        w.push_code(c, l);
    }
    let (c, l) = codes[256];
    w.push_code(c, l);
    let g = gzip_wrap(&w.bytes, b"abcd");
    assert_eq!(decomp(&g), Some(b"abcd".to_vec()));
}

#[test]
fn test_stored_block_unsupported() {
    let mut w = BitWriter::new();
    w.push_bit(1);
    w.push_bits_lsb(0, 2); // BTYPE stored
    w.push_bits_lsb(0, 13);
    let g = gzip_wrap(&w.bytes, b"");
    assert_eq!(decomp(&g), None);
}

#[test]
fn test_reserved_block_type() {
    let mut w = BitWriter::new();
    w.push_bit(1);
    w.push_bits_lsb(3, 2); // BTYPE reserved
    w.push_bits_lsb(0, 13);
    let g = gzip_wrap(&w.bytes, b"");
    assert_eq!(decomp(&g), None);
}

#[test]
fn test_invalid_symbol_286() {
    // The fixed tree can decode symbols 286 and 287, which are invalid.
    let codes = canonical_codes(&fixed_lens());
    let mut w = BitWriter::new();
    w.push_bit(1);
    w.push_bits_lsb(1, 2);
    let (c, l) = codes[286];
    w.push_code(c, l);
    let (c, l) = codes[256];
    w.push_code(c, l);
    let g = gzip_wrap(&w.bytes, b"");
    assert_eq!(decomp(&g), None);
}

#[test]
fn test_distance_beyond_output() {
    // A back-reference with nothing yet written must fail.
    let codes = canonical_codes(&fixed_lens());
    let mut w = BitWriter::new();
    w.push_bit(1);
    w.push_bits_lsb(1, 2);
    let (c, l) = codes[257]; // length 3
    w.push_code(c, l);
    w.push_bits_lsb(0, 5); // distance 1, but the output is empty
    let (c, l) = codes[256];
    w.push_code(c, l);
    let g = gzip_wrap(&w.bytes, b"");
    assert_eq!(decomp(&g), None);
}

#[test]
fn test_truncated_payload() {
    let mut g = fixed_gzip(b"Hello, world!\n");
    g.remove(g.len() - 9); // drop the payload's last byte
    assert_eq!(decomp(&g), None);
}

#[test]
fn test_crc_mismatch() {
    let mut g = fixed_gzip(b"a");
    let n = g.len();
    g[n - 8] ^= 0xff;
    assert_eq!(decomp(&g), None);
}

#[test]
fn test_isize_mismatch() {
    let mut g = fixed_gzip(b"a");
    let n = g.len();
    g[n - 1] ^= 0xff;
    assert_eq!(decomp(&g), None);
}

#[test]
fn test_too_short_input() {
    assert_eq!(decomp(b""), None);
    assert_eq!(decomp(&[0x1f, 0x8b, 0x08, 0x00, 0, 0, 0, 0, 0, 7]), None);
}

#[test]
fn test_header_fields_before_payload() {
    // A header with a file name, followed by a fixed block.
    let codes = canonical_codes(&fixed_lens());
    let mut w = BitWriter::new();
    w.push_bit(1);
    w.push_bits_lsb(1, 2);
    let (c, l) = codes[0x68];
    w.push_code(c, l);
    let (c, l) = codes[256];
    w.push_code(c, l);
    let mut g = vec![0x1f, 0x8b, 0x08, 0x08, 0, 0, 0, 0, 0x00, 0x07];
    g.extend_from_slice(b"file.txt\x00");
    g.extend_from_slice(&w.bytes);
    g.extend_from_slice(&crc32::sum(b"h").to_le_bytes());
    g.extend_from_slice(&1u32.to_le_bytes());
    assert_eq!(decomp(&g), Some(b"h".to_vec()));
}

/// A dynamic block whose literal tree gives 'a' a one-bit code and the
/// end-of-block symbol the maximum fifteen-bit code length, with the full
/// nineteen-entry code-length table transmitted (HCLEN = 15).
#[test]
fn test_dynamic_max_code_length() {
    let mut w = BitWriter::new();
    w.push_bit(1); // BFINAL
    w.push_bits_lsb(2, 2); // BTYPE dynamic
    w.push_bits_lsb(0, 5); // HLIT: 257 literal/length codes
    w.push_bits_lsb(0, 5); // HDIST: 1 distance code
    w.push_bits_lsb(15, 4); // HCLEN: all 19 code-length codes
    // Code-length code lengths, in the transmission order
    // 16 17 18 0 8 7 9 6 10 5 11 4 12 3 13 2 14 1 15: symbols 0, 1, 15
    // and 18 get two-bit codes.
    let order = [16, 17, 18, 0, 8, 7, 9, 6, 10, 5, 11, 4, 12, 3, 13, 2, 14, 1, 15];
    let mut cl_lens = vec![0u32; 19];
    cl_lens[0] = 2;
    cl_lens[1] = 2;
    cl_lens[15] = 2;
    cl_lens[18] = 2;
    for &sym in order.iter() {
        w.push_bits_lsb(cl_lens[sym as usize], 3);
    }
    let cl_codes = canonical_codes(&cl_lens);
    // Alphabet: symbols 0..=96 unused, 'a' (97) has length 1, 98..=255
    // unused, end-of-block (256) has length 15, one unused distance code.
    let (c, l) = cl_codes[18];
    w.push_code(c, l);
    w.push_bits_lsb(97 - 11, 7); // 97 zeros
    let (c, l) = cl_codes[1];
    w.push_code(c, l);
    let (c, l) = cl_codes[18];
    w.push_code(c, l);
    w.push_bits_lsb(138 - 11, 7); // 138 zeros
    let (c, l) = cl_codes[18];
    w.push_code(c, l);
    w.push_bits_lsb(20 - 11, 7); // 20 zeros
    let (c, l) = cl_codes[15];
    w.push_code(c, l);
    let (c, l) = cl_codes[0];
    w.push_code(c, l);
    // Literal codes: 'a' is the single one-bit code 0; end-of-block is
    // the fifteen-bit code 0b100000000000000.
    w.push_code(0, 1); // 'a'
    w.push_code(1 << 14, 15); // end of block
    let g = gzip_wrap(&w.bytes, b"a");
    assert_eq!(decomp(&g), Some(b"a".to_vec()));
}

/// A large dynamic header: HLIT = 29 (all 286 literal/length codes),
/// HDIST = 29 (all 30 distance codes), HCLEN = 15, with a back-reference
/// decoded through the distance tree.
#[test]
fn test_dynamic_large_header() {
    let mut w = BitWriter::new();
    w.push_bit(1); // BFINAL
    w.push_bits_lsb(2, 2); // BTYPE dynamic
    w.push_bits_lsb(29, 5); // HLIT
    w.push_bits_lsb(29, 5); // HDIST
    w.push_bits_lsb(15, 4); // HCLEN
    let order = [16, 17, 18, 0, 8, 7, 9, 6, 10, 5, 11, 4, 12, 3, 13, 2, 14, 1, 15];
    let mut cl_lens = vec![0u32; 19];
    cl_lens[5] = 2;
    cl_lens[9] = 2;
    cl_lens[16] = 2;
    for &sym in order.iter() {
        w.push_bits_lsb(cl_lens[sym as usize], 3);
    }
    let cl_codes = canonical_codes(&cl_lens);
    // 286 literal/length symbols of length 9: one "9" then repeats.
    let (c, l) = cl_codes[9];
    w.push_code(c, l);
    for _ in 0..47 {
        let (c, l) = cl_codes[16];
        w.push_code(c, l);
        w.push_bits_lsb(3, 2); // repeat 6
    }
    let (c, l) = cl_codes[16];
    w.push_code(c, l);
    w.push_bits_lsb(0, 2); // repeat 3
    // 30 distance symbols of length 5: one "5" then repeats.
    let (c, l) = cl_codes[5];
    w.push_code(c, l);
    for _ in 0..4 {
        let (c, l) = cl_codes[16];
        w.push_code(c, l);
        w.push_bits_lsb(3, 2); // repeat 6
    }
    let (c, l) = cl_codes[16];
    w.push_code(c, l);
    w.push_bits_lsb(2, 2); // repeat 5
    // All literal codes are nine bits and equal their symbol number; all
    // distance codes are five bits and equal their symbol number.
    for &b in b"abcd" {
        w.push_code(b as u32, 9);
    }
    w.push_code(258, 9); // length 4
    w.push_code(3, 5); // distance 4
    w.push_code(256, 9); // end of block
    let g = gzip_wrap(&w.bytes, b"abcdabcd");
    assert_eq!(decomp(&g), Some(b"abcdabcd".to_vec()));
}

#[test]
fn test_dynamic_repeat_without_previous() {
    // The first code-length symbol may not be a repeat.
    let mut w = BitWriter::new();
    w.push_bit(1);
    w.push_bits_lsb(2, 2);
    w.push_bits_lsb(0, 5);
    w.push_bits_lsb(0, 5);
    w.push_bits_lsb(15, 4);
    let order = [16, 17, 18, 0, 8, 7, 9, 6, 10, 5, 11, 4, 12, 3, 13, 2, 14, 1, 15];
    let mut cl_lens = vec![0u32; 19];
    cl_lens[0] = 2;
    cl_lens[1] = 2;
    cl_lens[15] = 2;
    cl_lens[16] = 2;
    for &sym in order.iter() {
        w.push_bits_lsb(cl_lens[sym as usize], 3);
    }
    let cl_codes = canonical_codes(&cl_lens);
    let (c, l) = cl_codes[16]; // repeat with no previous length
    w.push_code(c, l);
    w.push_bits_lsb(0, 2);
    let g = gzip_wrap(&w.bytes, b"");
    assert_eq!(decomp(&g), None);
}

#[test]
fn test_invalid_distance_symbol() {
    // Five raw distance bits can spell symbols 30 and 31, which are
    // invalid.
    let codes = canonical_codes(&fixed_lens());
    let mut w = BitWriter::new();
    w.push_bit(1);
    w.push_bits_lsb(1, 2);
    let (c, l) = codes[0x61];
    w.push_code(c, l);
    let (c, l) = codes[257];
    w.push_code(c, l);
    w.push_bits_lsb(30, 5);
    let (c, l) = codes[256];
    w.push_code(c, l);
    let g = gzip_wrap(&w.bytes, b"aaaa");
    assert_eq!(decomp(&g), None);
}

#[test]
fn test_length_with_extra_bits() {
    // Length symbol 265 with one extra bit set decodes to 11 + 1 = 12.
    let codes = canonical_codes(&fixed_lens());
    let mut w = BitWriter::new();
    w.push_bit(1);
    w.push_bits_lsb(1, 2);
    let (c, l) = codes[0x61];
    w.push_code(c, l);
    let (c, l) = codes[265];
    w.push_code(c, l);
    w.push_bit(1); // extra bit
    w.push_bits_lsb(0, 5); // distance 1
    let (c, l) = codes[256];
    w.push_code(c, l);
    let g = gzip_wrap(&w.bytes, b"aaaaaaaaaaaaa");
    assert_eq!(decomp(&g), Some(b"aaaaaaaaaaaaa".to_vec()));
}

#[test]
fn test_distance_with_extra_bits() {
    // Distance symbol 4 with one extra bit set decodes to 4 + 1 = 5.
    let codes = canonical_codes(&fixed_lens());
    let mut w = BitWriter::new();
    w.push_bit(1);
    w.push_bits_lsb(1, 2);
    for &b in b"abcde" {
        let (c, l) = codes[b as usize];
        w.push_code(c, l);
    }
    let (c, l) = codes[257]; // length 3
    w.push_code(c, l);
    w.push_bits_lsb(4, 5); // distance symbol 4
    w.push_bit(1); // extra bit
    let (c, l) = codes[256];
    w.push_code(c, l);
    let g = gzip_wrap(&w.bytes, b"abcdeabc");
    assert_eq!(decomp(&g), Some(b"abcdeabc".to_vec()));
}
