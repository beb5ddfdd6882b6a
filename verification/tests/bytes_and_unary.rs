use bitread::read::{BitRead, BitReaderBE};
use bitread::source::IoError;

#[test]
fn read_bytes_on_a_byte_boundary_copies_the_source() {
    let data = [0x10u8, 0x20, 0x30, 0x40, 0x50];
    let mut source: &[u8] = &data;
    let mut reader = BitReaderBE::new(&mut source);
    let mut buf = [0u8; 3];
    assert_eq!(reader.read_bytes(&mut buf), Ok(()));
    assert_eq!(buf, [0x10, 0x20, 0x30]);
    assert!(reader.byte_aligned());
    assert_eq!(reader.read(16), Ok(0x4050));
}

#[test]
fn read_bytes_on_a_byte_boundary_equals_reads_of_eight_bits() {
    let data = [0x00u8, 0xFF, 0x5A, 0xA5, 0x81, 0x7E, 0x01];
    let mut bulk_source: &[u8] = &data;
    let mut bulk = BitReaderBE::new(&mut bulk_source);
    let mut single_source: &[u8] = &data;
    let mut single = BitReaderBE::new(&mut single_source);
    let mut buf = [0u8; 7];
    assert_eq!(bulk.read_bytes(&mut buf), Ok(()));
    for byte in buf {
        assert_eq!(single.read(8), Ok(byte as u32));
    }
}

#[test]
fn read_bytes_off_a_byte_boundary_equals_reads_of_eight_bits() {
    let data = [0x12u8, 0x34, 0x56, 0x78];
    let mut source: &[u8] = &data;
    let mut reader = BitReaderBE::new(&mut source);
    assert_eq!(reader.read(4), Ok(0x1));
    let mut buf = [0u8; 3];
    assert_eq!(reader.read_bytes(&mut buf), Ok(()));
    assert_eq!(buf, [0x23, 0x45, 0x67]);
    assert!(!reader.byte_aligned());
    assert_eq!(reader.read(4), Ok(0x8));
}

#[test]
fn read_bytes_into_an_empty_buffer_succeeds() {
    let data: [u8; 0] = [];
    let mut source: &[u8] = &data;
    let mut reader = BitReaderBE::new(&mut source);
    let mut buf: [u8; 0] = [];
    assert_eq!(reader.read_bytes(&mut buf), Ok(()));
}

#[test]
fn read_bytes_failing_on_a_byte_boundary_leaves_the_buffer() {
    let data = [0x11u8, 0x22];
    let mut source: &[u8] = &data;
    let mut reader = BitReaderBE::new(&mut source);
    let mut buf = [0xEEu8; 3];
    assert_eq!(reader.read_bytes(&mut buf), Err(IoError));
    assert_eq!(buf, [0xEE, 0xEE, 0xEE]);
    assert_eq!(reader.read(1), Err(IoError));
}

#[test]
fn read_bytes_failing_off_a_byte_boundary_fills_what_it_can() {
    let data = [0x12u8, 0x34, 0x56];
    let mut source: &[u8] = &data;
    let mut reader = BitReaderBE::new(&mut source);
    assert_eq!(reader.read(4), Ok(0x1));
    let mut buf = [0xEEu8; 4];
    assert_eq!(reader.read_bytes(&mut buf), Err(IoError));
    assert_eq!(buf, [0x23, 0x45, 0xEE, 0xEE]);
    assert!(reader.byte_aligned());
    assert_eq!(reader.read(1), Err(IoError));
}

#[test]
fn unary_runs_cross_byte_boundaries() {
    let data = [0xFFu8, 0xFF, 0b1101_0000, 0x00, 0x01];
    let mut source: &[u8] = &data;
    let mut reader = BitReaderBE::new(&mut source);
    assert_eq!(reader.read_unary0(), Ok(18));
    assert_eq!(reader.read_unary0(), Ok(1));
    assert_eq!(reader.read_unary0(), Ok(0));
    assert_eq!(reader.read_unary1(), Ok(17));
    assert!(reader.byte_aligned());
}

#[test]
fn unary_counts_of_zero() {
    let data = [0b0100_0000u8];
    let mut source: &[u8] = &data;
    let mut reader = BitReaderBE::new(&mut source);
    assert_eq!(reader.read_unary0(), Ok(0));
    assert_eq!(reader.read_unary1(), Ok(0));
    assert_eq!(reader.read(6), Ok(0));
}

#[test]
fn unary_without_a_stop_bit_fails() {
    let ones = [0xFFu8, 0xFF];
    let mut source: &[u8] = &ones;
    let mut reader = BitReaderBE::new(&mut source);
    assert_eq!(reader.read_unary0(), Err(IoError));
    assert!(reader.byte_aligned());
    let zeros = [0x00u8];
    let mut source: &[u8] = &zeros;
    let mut reader = BitReaderBE::new(&mut source);
    assert_eq!(reader.read_unary1(), Err(IoError));
    assert_eq!(reader.read(1), Err(IoError));
}
