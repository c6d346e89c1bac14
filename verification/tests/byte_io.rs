use rustmpeg::byteio::{BitReader, ByteReader, ByteWriter};
use rustmpeg::error::ErrorKind;

#[test]
fn byte_reader_tracks_position_and_endianness() {
    let mut reader = ByteReader::new(&[0x34, 0x12, 0xAA, 0xBB]);
    assert_eq!(reader.read_u16_le().unwrap(), 0x1234);
    assert_eq!(reader.read_u16_be().unwrap(), 0xAABB);
    assert_eq!(reader.remaining(), 0);
}

#[test]
fn bit_reader_is_msb_first() {
    let mut reader = BitReader::new(&[0b1011_0010]);
    assert_eq!(reader.read_bits(3).unwrap(), 0b101);
    assert_eq!(reader.read_bits(5).unwrap(), 0b1_0010);
}

#[test]
fn writer_can_patch_container_lengths() {
    let mut writer = ByteWriter::new();
    writer.write(b"RIFF");
    writer.write_u32_le(0);
    writer.patch_u32_le(4, 36).unwrap();
    assert_eq!(&writer.as_slice()[4..8], &36_u32.to_le_bytes());
}

#[test]
fn written_integers_read_back_in_both_byte_orders() {
    let mut writer = ByteWriter::with_capacity(32);
    writer.write_u8(0xFE);
    writer.write_u16_le(0xBEEF);
    writer.write_u16_be(0xCAFE);
    writer.write_u32_le(0x1234_5678);
    writer.write_u32_be(0x9ABC_DEF0);
    writer.write_u64_le(0x0102_0304_0506_0708);
    assert_eq!(writer.len(), 21);
    let bytes = writer.into_inner();
    let mut reader = ByteReader::new(&bytes);
    assert_eq!(reader.read_u8().unwrap(), 0xFE);
    assert_eq!(reader.read_u16_le().unwrap(), 0xBEEF);
    assert_eq!(reader.read_u16_be().unwrap(), 0xCAFE);
    assert_eq!(reader.read_u32_le().unwrap(), 0x1234_5678);
    assert_eq!(reader.read_u32_be().unwrap(), 0x9ABC_DEF0);
    assert_eq!(reader.read_u64_le().unwrap(), 0x0102_0304_0506_0708);
    assert_eq!(reader.read_u8().unwrap_err().kind(), ErrorKind::EndOfFile);
}

#[test]
fn signed_and_24_bit_reads() {
    let mut reader = ByteReader::new(&[0xFF, 0xFF, 0x01, 0x02, 0x03, 0x01, 0x02, 0x03, 0xFE, 0xFF, 0xFF, 0xFF]);
    assert_eq!(reader.read_i16_le().unwrap(), -1);
    assert_eq!(reader.read_u24_le().unwrap(), 0x030201);
    assert_eq!(reader.read_u24_be().unwrap(), 0x010203);
    assert_eq!(reader.read_i32_le().unwrap(), -2);
    let mut be = ByteReader::new(&[1, 2, 3, 4, 5, 6, 7, 8]);
    assert_eq!(be.read_u64_be().unwrap(), 0x0102_0304_0506_0708);
}

#[test]
fn reader_seek_skip_take_peek() {
    let data = [1, 2, 3, 4, 5];
    let mut reader = ByteReader::new(&data);
    assert_eq!(reader.len(), 5);
    assert!(!reader.is_empty());
    assert_eq!(reader.peek(2).unwrap(), &[1, 2]);
    assert_eq!(reader.position(), 0);
    reader.skip(1).unwrap();
    assert_eq!(reader.take(2).unwrap(), &[2, 3]);
    assert_eq!(reader.position(), 3);
    assert_eq!(reader.take(3).unwrap_err().kind(), ErrorKind::EndOfFile);
    assert_eq!(reader.position(), 3);
    assert_eq!(reader.seek(6).unwrap_err().kind(), ErrorKind::InvalidArgument);
    reader.seek(5).unwrap();
    assert_eq!(reader.remaining(), 0);
    assert_eq!(reader.skip(usize::MAX).unwrap_err().kind(), ErrorKind::Overflow);
    assert!(ByteReader::new(&[]).is_empty());
}

#[test]
fn writer_patch_out_of_bounds_is_rejected() {
    let mut writer = ByteWriter::new();
    assert!(writer.is_empty());
    writer.write(&[0, 0, 0]);
    assert_eq!(writer.patch_u32_le(0, 1).unwrap_err().kind(), ErrorKind::InvalidArgument);
    assert_eq!(writer.patch_u32_le(usize::MAX, 1).unwrap_err().kind(), ErrorKind::Overflow);
    assert_eq!(writer.as_slice(), &[0, 0, 0]);
}

#[test]
fn bit_reader_skip_align_and_limits() {
    let mut reader = BitReader::new(&[0b1000_0000, 0xFF]);
    assert!(reader.read_bit().unwrap());
    assert_eq!(reader.bit_position(), 1);
    reader.align_to_byte().unwrap();
    assert_eq!(reader.bit_position(), 8);
    assert_eq!(reader.bits_remaining(), 8);
    assert_eq!(reader.read_bits(65).unwrap_err().kind(), ErrorKind::InvalidArgument);
    assert_eq!(reader.read_bits(9).unwrap_err().kind(), ErrorKind::EndOfFile);
    reader.skip_bits(4).unwrap();
    assert_eq!(reader.read_bits(4).unwrap(), 0xF);
    assert_eq!(reader.read_bit().unwrap_err().kind(), ErrorKind::EndOfFile);
    assert_eq!(reader.skip_bits(1).unwrap_err().kind(), ErrorKind::EndOfFile);
}
