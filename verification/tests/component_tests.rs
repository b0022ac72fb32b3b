use rust_zlib::crc32;
use rust_zlib::cvec::CVec;
use rust_zlib::gz_reader::GzBitReader;

#[test]
fn test_crc32_known_vectors() {
    assert_eq!(crc32::sum(b""), 0);
    assert_eq!(crc32::sum(b"a"), 0xe8b7be43);
    assert_eq!(crc32::sum(b"abc"), 0x352441c2);
    assert_eq!(crc32::sum(b"123456789"), 0xcbf43926);
}

#[test]
fn test_bit_reader_bit_order() {
    // 0xb2 = 0b1011_0010, delivered least significant bit first.
    let reader = GzBitReader::new(vec![0xb2]);
    let mut reader = reader.unwrap();
    let expect = [0, 1, 0, 0, 1, 1, 0, 1];
    for &bit in expect.iter() {
        assert_eq!(reader.next_bit(), Some(bit));
    }
    assert_eq!(reader.next_bit(), None);
}

#[test]
fn test_bit_reader_empty_payload() {
    assert!(GzBitReader::new(Vec::new()).is_none());
}

#[test]
fn test_read_bits_assembles_lsb_first() {
    let mut reader = GzBitReader::new(vec![0xb2, 0x4d]).unwrap();
    assert_eq!(reader.read_bits(16), Some(0x4db2));
}

#[test]
fn test_read_bits_split_matches_whole() {
    // Reading 3 bits then 5 bits sees the same bits as one 8-bit read
    // split at position 3.
    let mut whole = GzBitReader::new(vec![0xb2]).unwrap();
    let v = whole.read_bits(8).unwrap();
    let mut split = GzBitReader::new(vec![0xb2]).unwrap();
    let lo = split.read_bits(3).unwrap();
    let hi = split.read_bits(5).unwrap();
    assert_eq!(v, lo | (hi << 3));
    assert_eq!(lo, 0b010);
    assert_eq!(hi, 0b10110);
}

#[test]
fn test_read_bits_past_end_fails() {
    let mut reader = GzBitReader::new(vec![0xff]).unwrap();
    assert_eq!(reader.read_bits(9), None);
}

#[test]
fn test_cvec_push_pop() {
    let mut v: CVec<u8> = CVec::new().unwrap();
    assert_eq!(v.len(), 0);
    v.push(7);
    v.push(9);
    assert_eq!(v.len(), 2);
    assert_eq!(v.as_slice(), &[7, 9]);
    assert_eq!(v.pop(), Some(9));
    assert_eq!(v.pop(), Some(7));
    assert_eq!(v.pop(), None);
}

#[test]
fn test_copy_back_pointer_run_length() {
    // A back-reference with length greater than distance re-reads bytes it
    // just produced: one byte expands into a run.
    let mut v: CVec<u8> = CVec::new().unwrap();
    v.push(0x61);
    v.copy_back_pointer(1, 5);
    assert_eq!(v.as_slice(), b"aaaaaa");
}

#[test]
fn test_copy_back_pointer_window() {
    let mut v: CVec<u8> = CVec::new().unwrap();
    for &b in b"abcd" {
        v.push(b);
    }
    v.copy_back_pointer(4, 4);
    assert_eq!(v.as_slice(), b"abcdabcd");
    v.copy_back_pointer(2, 3);
    assert_eq!(v.as_slice(), b"abcdabcdcdc");
}
