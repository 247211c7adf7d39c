use dns_resolver::types::bytepacket_buffer::BytePacketBuffer;
use dns_resolver::types::error::DnsError;

fn buffer_with(bytes: &[u8]) -> BytePacketBuffer {
    let mut buf = BytePacketBuffer::new();
    buf.buf[..bytes.len()].copy_from_slice(bytes);
    buf
}

#[test]
fn new_buffer_is_zeroed_at_start() {
    let mut buf = BytePacketBuffer::new();
    assert_eq!(buf.pos(), 0);
    assert!(buf.buf.iter().all(|b| *b == 0));
    let mut d = BytePacketBuffer::default();
    assert_eq!(d.pos(), 0);
}

#[test]
fn read_moves_the_cursor() {
    let mut buf = buffer_with(&[7, 8]);
    assert_eq!(buf.read(), Ok(7));
    assert_eq!(buf.read(), Ok(8));
    assert_eq!(buf.pos(), 2);
}

#[test]
fn read_at_end_fails() {
    let mut buf = BytePacketBuffer::new();
    buf.pos = 512;
    assert_eq!(buf.read(), Err(DnsError::EndOfBuffer));
    assert_eq!(buf.pos, 512);
}

#[test]
fn read_u16_and_u32_are_big_endian() {
    let mut buf = buffer_with(&[0x12, 0x34, 0xde, 0xad, 0xbe, 0xef]);
    assert_eq!(buf.read_u16(), Ok(0x1234));
    assert_eq!(buf.read_u32(), Ok(0xdead_beef));
    assert_eq!(buf.pos, 6);
}

#[test]
fn read_u16_across_the_end_fails_past_the_last_byte() {
    let mut buf = BytePacketBuffer::new();
    buf.pos = 511;
    assert_eq!(buf.read_u16(), Err(DnsError::EndOfBuffer));
    assert_eq!(buf.pos, 512);
}

#[test]
fn read_u32_across_the_end_fails() {
    let mut buf = BytePacketBuffer::new();
    buf.pos = 510;
    assert_eq!(buf.read_u32(), Err(DnsError::EndOfBuffer));
    assert_eq!(buf.pos, 512);
}

#[test]
fn write_then_read_u8_u16_u32() {
    let mut buf = BytePacketBuffer::new();
    buf.write_u8(0xab).unwrap();
    buf.write_u16(0xbeef).unwrap();
    buf.write_u32(0x0102_0304).unwrap();
    assert_eq!(buf.pos(), 7);
    assert_eq!(&buf.buf[..7], &[0xab, 0xbe, 0xef, 1, 2, 3, 4]);
    buf.pos = 0;
    assert_eq!(buf.read(), Ok(0xab));
    assert_eq!(buf.read_u16(), Ok(0xbeef));
    assert_eq!(buf.read_u32(), Ok(0x0102_0304));
}

#[test]
fn write_past_the_end_writes_what_fits() {
    let mut buf = BytePacketBuffer::new();
    buf.pos = 510;
    assert_eq!(buf.write_u32(0x0102_0304), Err(DnsError::EndOfBuffer));
    assert_eq!(buf.pos, 512);
    assert_eq!(&buf.buf[510..], &[1, 2]);
    assert_eq!(buf.write(9), Err(DnsError::EndOfBuffer));
    assert_eq!(buf.write_u16(9), Err(DnsError::EndOfBuffer));
}

#[test]
fn set_and_get_leave_the_cursor() {
    let mut buf = BytePacketBuffer::new();
    buf.pos = 3;
    assert_eq!(buf.set(10, 42), Ok(()));
    assert_eq!(buf.get(10), Ok(42));
    assert_eq!(buf.pos, 3);
    assert_eq!(buf.set(512, 1), Err(DnsError::InvalidPosition));
    assert_eq!(buf.get(512), Err(DnsError::PositionOutOfRange));
}

#[test]
fn set_u16_stores_big_endian() {
    let mut buf = BytePacketBuffer::new();
    buf.buf[19] = 0x77;
    buf.buf[22] = 0x66;
    buf.pos = 5;
    assert_eq!(buf.set_u16(20, 0x1234), Ok(()));
    assert_eq!(&buf.buf[19..23], &[0x77, 0x12, 0x34, 0x66]);
    assert_eq!(buf.pos, 5);
    assert_eq!(buf.set_u16(510, 0xabcd), Ok(()));
    assert_eq!(&buf.buf[510..512], &[0xab, 0xcd]);
    assert_eq!(buf.set_u16(511, 1), Err(DnsError::InvalidPosition));
    assert_eq!(buf.buf[511], 0xcd);
    assert_eq!(buf.set_u16(600, 1), Err(DnsError::InvalidPosition));
}

#[test]
fn get_range_must_end_before_the_last_byte() {
    let mut buf = buffer_with(&[1, 2, 3, 4]);
    assert_eq!(buf.get_range(1, 2), Ok(&[2u8, 3][..]));
    assert_eq!(buf.get_range(0, 511).map(|r| r.len()), Ok(511));
    assert_eq!(buf.get_range(0, 512), Err(DnsError::InvalidRange));
    assert_eq!(buf.get_range(500, 12), Err(DnsError::InvalidRange));
    assert_eq!(buf.get_range(usize::MAX, 2), Err(DnsError::InvalidRange));
}

#[test]
fn step_moves_the_cursor_anywhere() {
    let mut buf = BytePacketBuffer::new();
    assert_eq!(buf.step(700), Ok(()));
    assert_eq!(buf.pos, 700);
    assert_eq!(buf.read(), Err(DnsError::EndOfBuffer));
}
