use bitread::read::{BitRead, BitReaderBE};
use bitread::source::{ByteSource, IoError};

#[test]
fn aligned_after_construction() {
    let data = [0x55u8];
    let mut source: &[u8] = &data;
    let reader = BitReaderBE::new(&mut source);
    assert!(reader.byte_aligned());
    let empty: [u8; 0] = [];
    let mut source: &[u8] = &empty;
    let reader = BitReaderBE::new(&mut source);
    assert!(reader.byte_aligned());
}

#[test]
fn aligned_exactly_when_the_bits_read_are_a_multiple_of_eight() {
    let data = [0u8; 16];
    let widths: [u32; 9] = [3, 5, 1, 7, 8, 13, 19, 32, 32];
    let mut source: &[u8] = &data;
    let mut reader = BitReaderBE::new(&mut source);
    let mut total: u32 = 0;
    for width in widths {
        assert_eq!(reader.read(width), Ok(0));
        total += width;
        assert_eq!(reader.byte_aligned(), total % 8 == 0);
    }
}

#[test]
fn aligned_after_every_count_of_single_bits() {
    let data = [0xC3u8; 4];
    let mut source: &[u8] = &data;
    let mut reader = BitReaderBE::new(&mut source);
    for taken in 1u32..=32 {
        assert!(reader.read(1).is_ok());
        assert_eq!(reader.byte_aligned(), taken % 8 == 0);
    }
}

#[test]
fn byte_align_drops_the_rest_of_the_byte() {
    let data = [0b1010_1111u8, 0x42];
    let mut source: &[u8] = &data;
    let mut reader = BitReaderBE::new(&mut source);
    assert_eq!(reader.read(3), Ok(0b101));
    assert!(!reader.byte_aligned());
    reader.byte_align();
    assert!(reader.byte_aligned());
    assert_eq!(reader.read(8), Ok(0x42));
}

#[test]
fn byte_align_twice_is_byte_align_once() {
    let data = [0xF0u8, 0x0F, 0x99];
    let mut source: &[u8] = &data;
    let mut reader = BitReaderBE::new(&mut source);
    assert_eq!(reader.read(1), Ok(1));
    reader.byte_align();
    reader.byte_align();
    assert!(reader.byte_aligned());
    assert_eq!(reader.read(8), Ok(0x0F));
    reader.byte_align();
    assert!(reader.byte_aligned());
    assert_eq!(reader.read(8), Ok(0x99));
}

#[test]
fn byte_align_takes_nothing_from_the_source() {
    let data = [0xAAu8, 0xBB];
    let mut source: &[u8] = &data;
    {
        let mut reader = BitReaderBE::new(&mut source);
        assert_eq!(reader.read(2), Ok(0b10));
        reader.byte_align();
    }
    assert_eq!(source, &[0xBBu8][..]);
}

#[test]
fn exhausted_and_aligned_every_read_fails_and_stays_aligned() {
    let data = [0x77u8];
    let mut source: &[u8] = &data;
    let mut reader = BitReaderBE::new(&mut source);
    assert_eq!(reader.read(8), Ok(0x77));
    assert!(reader.byte_aligned());
    assert_eq!(reader.read(1), Err(IoError));
    assert!(reader.byte_aligned());
    assert_eq!(reader.read_signed(5), Err(IoError));
    assert!(reader.byte_aligned());
    assert_eq!(reader.skip(1), Err(IoError));
    assert!(reader.byte_aligned());
    let mut buf = [0u8; 1];
    assert_eq!(reader.read_bytes(&mut buf), Err(IoError));
    assert!(reader.byte_aligned());
    assert_eq!(reader.read_unary0(), Err(IoError));
    assert!(reader.byte_aligned());
    assert_eq!(reader.read_unary1(), Err(IoError));
    assert!(reader.byte_aligned());
}

#[test]
fn exhausted_with_bits_held_reads_within_them_succeed() {
    let data = [0b1111_0110u8];
    let mut source: &[u8] = &data;
    let mut reader = BitReaderBE::new(&mut source);
    assert_eq!(reader.read(4), Ok(0xF));
    assert_eq!(reader.read(3), Ok(0b011));
    assert!(!reader.byte_aligned());
    assert_eq!(reader.read(2), Err(IoError));
    assert!(reader.byte_aligned());
}

#[test]
fn slice_source_hands_out_bytes_in_order() {
    let data = [1u8, 2, 3, 4, 5];
    let mut source: &[u8] = &data;
    let mut first = [0u8; 2];
    assert_eq!(source.read_exact(&mut first), Ok(()));
    assert_eq!(first, [1, 2]);
    let mut none: [u8; 0] = [];
    assert_eq!(source.read_exact(&mut none), Ok(()));
    let mut rest = [0u8; 3];
    assert_eq!(source.read_exact(&mut rest), Ok(()));
    assert_eq!(rest, [3, 4, 5]);
    assert_eq!(source.read_exact(&mut none), Ok(()));
    assert_eq!(source.read_exact(&mut first), Err(IoError));
}

#[test]
fn slice_source_failure_leaves_the_buffer_and_empties_the_source() {
    let data = [9u8, 8];
    let mut source: &[u8] = &data;
    let mut buf = [0xEEu8; 3];
    assert_eq!(source.read_exact(&mut buf), Err(IoError));
    assert_eq!(buf, [0xEE, 0xEE, 0xEE]);
    assert!(source.is_empty());
    let mut one = [0u8; 1];
    assert_eq!(source.read_exact(&mut one), Err(IoError));
}
