use dns_resolver::types::bytepacket_buffer::BytePacketBuffer;
use dns_resolver::types::error::DnsError;

fn buffer_with(bytes: &[u8]) -> BytePacketBuffer {
    let mut buf = BytePacketBuffer::new();
    buf.buf[..bytes.len()].copy_from_slice(bytes);
    buf
}

#[test]
fn write_qname_lays_out_labels() {
    let mut buf = BytePacketBuffer::new();
    buf.write_qname("www.google.com").unwrap();
    let expected: &[u8] = &[3, b'w', b'w', b'w', 6, b'g', b'o', b'o', b'g', b'l', b'e', 3, b'c', b'o', b'm', 0];
    assert_eq!(buf.pos, expected.len());
    assert_eq!(&buf.buf[..expected.len()], expected);
}

#[test]
fn write_qname_of_empty_and_dotted_names() {
    let mut buf = BytePacketBuffer::new();
    buf.write_qname("").unwrap();
    assert_eq!(&buf.buf[..2], &[0, 0]);
    assert_eq!(buf.pos, 2);

    let mut buf = BytePacketBuffer::new();
    buf.write_qname("com.").unwrap();
    assert_eq!(&buf.buf[..6], &[3, b'c', b'o', b'm', 0, 0]);
    assert_eq!(buf.pos, 6);
}

#[test]
fn write_qname_rejects_a_long_label_after_writing_those_before() {
    let long = "a".repeat(64);
    let name = format!("ok.{}.com", long);
    let mut buf = BytePacketBuffer::new();
    assert_eq!(buf.write_qname(&name), Err(DnsError::LabelTooLong));
    assert_eq!(buf.pos, 3);
    assert_eq!(&buf.buf[..3], &[2, b'o', b'k']);

    let fits = "b".repeat(63);
    let mut buf = BytePacketBuffer::new();
    assert_eq!(buf.write_qname(&fits), Ok(()));
    assert_eq!(buf.pos, 65);
}

#[test]
fn write_qname_past_the_end_fails() {
    let mut buf = BytePacketBuffer::new();
    buf.pos = 505;
    assert_eq!(buf.write_qname("example.com"), Err(DnsError::EndOfBuffer));
    assert_eq!(buf.pos, 512);
}

#[test]
fn read_qname_reads_and_lowercases() {
    let mut buf = buffer_with(&[3, b'W', b'w', b'W', 6, b'G', b'o', b'o', b'g', b'l', b'e', 3, b'c', b'O', b'm', 0, 9]);
    let mut out = String::new();
    assert_eq!(buf.read_qname(&mut out), Ok(()));
    assert_eq!(out, "www.google.com");
    assert_eq!(buf.pos, 16);
}

#[test]
fn read_qname_appends_to_the_string() {
    let mut buf = buffer_with(&[2, b'h', b'i', 0]);
    let mut out = String::from("say ");
    buf.read_qname(&mut out).unwrap();
    assert_eq!(out, "say hi");
}

#[test]
fn read_qname_follows_a_pointer_and_stops_past_it() {
    // "example.com" at 0, then "www" followed by a pointer to 0 at 13
    let mut bytes = vec![7, b'e', b'x', b'a', b'm', b'p', b'l', b'e', 3, b'c', b'o', b'm', 0];
    bytes.extend_from_slice(&[3, b'w', b'w', b'w', 0xc0, 0x00, 0xff]);
    let mut buf = buffer_with(&bytes);
    buf.pos = 13;
    let mut out = String::new();
    assert_eq!(buf.read_qname(&mut out), Ok(()));
    assert_eq!(out, "www.example.com");
    assert_eq!(buf.pos, 19);
}

#[test]
fn read_qname_with_a_pointer_loop_gives_up() {
    // a pointer to itself
    let mut buf = buffer_with(&[0xc0, 0x00]);
    let mut out = String::new();
    assert_eq!(buf.read_qname(&mut out), Err(DnsError::TooManyJumps));
    assert_eq!(out, "");
    assert_eq!(buf.pos, 2);
}

#[test]
fn read_qname_outside_the_buffer_fails() {
    let mut buf = BytePacketBuffer::new();
    buf.pos = 600;
    let mut out = String::new();
    assert_eq!(buf.read_qname(&mut out), Err(DnsError::PositionOutOfRange));
    assert_eq!(buf.pos, 600);
}

#[test]
fn read_qname_with_a_label_past_the_end_fails() {
    let mut buf = BytePacketBuffer::new();
    buf.buf[500] = 1;
    buf.buf[501] = b'a';
    buf.buf[502] = 20;
    buf.pos = 500;
    let mut out = String::new();
    assert_eq!(buf.read_qname(&mut out), Err(DnsError::InvalidRange));
    assert_eq!(out, "a.");
    assert_eq!(buf.pos, 500);
}

#[test]
fn read_qname_replaces_invalid_utf8() {
    let mut buf = buffer_with(&[2, b'x', 0xff, 0]);
    let mut out = String::new();
    buf.read_qname(&mut out).unwrap();
    assert_eq!(out, "x\u{fffd}");
}

#[test]
fn qname_written_reads_back() {
    let mut buf = BytePacketBuffer::new();
    buf.pos = 40;
    buf.write_qname("Mail.Example.ORG").unwrap();
    let end = buf.pos;
    buf.pos = 40;
    let mut out = String::new();
    buf.read_qname(&mut out).unwrap();
    assert_eq!(out, "mail.example.org");
    assert_eq!(buf.pos, end);
}

#[test]
fn read_qname_doc_example() {
    let mut buf = buffer_with(&[3, b'w', b'w', b'w', 6, b'g', b'o', b'o', b'g', b'l', b'e', 3, b'c', b'o', b'm', 0]);
    let mut out = String::new();
    buf.read_qname(&mut out).unwrap();
    assert_eq!(out, "www.google.com");
}

#[test]
fn read_qname_follows_at_most_five_pointers() {
    // "a" at 0, then pointers at 3, 5, ..., 13, each to the one before
    let mut bytes = vec![1, b'a', 0];
    for target in [0u8, 3, 5, 7, 9, 11] {
        bytes.extend_from_slice(&[0xc0, target]);
    }
    let mut buf = buffer_with(&bytes);
    buf.pos = 11;
    let mut out = String::new();
    assert_eq!(buf.read_qname(&mut out), Ok(()));
    assert_eq!(out, "a");
    assert_eq!(buf.pos, 13);

    buf.pos = 13;
    let mut out = String::new();
    assert_eq!(buf.read_qname(&mut out), Err(DnsError::TooManyJumps));
    assert_eq!(buf.pos, 15);
}

#[test]
fn read_qname_pointer_at_the_last_byte_fails() {
    let mut buf = BytePacketBuffer::new();
    buf.buf[511] = 0xc0;
    buf.pos = 511;
    let mut out = String::new();
    assert_eq!(buf.read_qname(&mut out), Err(DnsError::PositionOutOfRange));
    assert_eq!(buf.pos, 513);
}

#[test]
fn lowercase_name_reads_back_as_written() {
    let mut buf = BytePacketBuffer::new();
    buf.pos = 7;
    buf.write_qname("www.google.com").unwrap();
    assert_eq!(buf.pos, 7 + 14 + 2);
    buf.pos = 7;
    let mut out = String::new();
    assert_eq!(buf.read_qname(&mut out), Ok(()));
    assert_eq!(out, "www.google.com");
    assert_eq!(buf.pos, 23);
}
