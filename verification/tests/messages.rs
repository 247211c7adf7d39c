use dns_resolver::protocol::header::DnsHeader;
use dns_resolver::protocol::packet::DnsPacket;
use dns_resolver::protocol::question::DnsQuestion;
use dns_resolver::protocol::record::DnsRecord;
use dns_resolver::types::bytepacket_buffer::BytePacketBuffer;
use dns_resolver::types::error::DnsError;
use dns_resolver::types::query_type::QueryType;
use dns_resolver::types::result_code::ResultCode;

fn buffer_with(bytes: &[u8]) -> BytePacketBuffer {
    let mut buf = BytePacketBuffer::new();
    buf.buf[..bytes.len()].copy_from_slice(bytes);
    buf
}

/// A response for the A record of google.com: one question, one answer
/// whose owner is a pointer to the question's name.
fn google_response() -> Vec<u8> {
    let mut p = vec![0x12, 0x34, 0x81, 0x80, 0, 1, 0, 1, 0, 0, 0, 0];
    p.extend_from_slice(&[6, b'g', b'o', b'o', b'g', b'l', b'e', 3, b'c', b'o', b'm', 0, 0, 1, 0, 1]);
    p.extend_from_slice(&[0xc0, 0x0c, 0, 1, 0, 1, 0, 0, 0x01, 0x2c, 0, 4, 142, 250, 72, 206]);
    p
}

#[test]
fn header_new_is_empty() {
    let h = DnsHeader::new();
    assert_eq!(h.id, 0);
    assert!(!h.query_or_response && !h.recursion_desired && !h.z);
    assert_eq!(h.response_code, ResultCode::NOERR);
    assert_eq!(h.question_count + h.answer_count + h.authority_count + h.additional_count, 0);
    assert_eq!(DnsHeader::default(), h);
}

#[test]
fn header_read_takes_the_flags_apart() {
    let mut buf = buffer_with(&[0x12, 0x34, 0x81, 0x83, 0, 1, 0, 2, 0, 3, 0, 4]);
    let mut h = DnsHeader::new();
    assert_eq!(h.read(&mut buf), Ok(()));
    assert_eq!(h.id, 0x1234);
    assert!(h.query_or_response);
    assert!(h.recursion_desired);
    assert!(!h.truncation && !h.authoritative_answer);
    assert_eq!(h.opcode, 0);
    assert!(h.recursion_available);
    assert_eq!(h.response_code, ResultCode::NXDOMAIN);
    assert_eq!((h.question_count, h.answer_count, h.authority_count, h.additional_count), (1, 2, 3, 4));
    assert_eq!(buf.pos, 12);
}

#[test]
fn header_read_stops_at_the_end_keeping_what_it_read() {
    let mut buf = BytePacketBuffer::new();
    buf.buf[508..].copy_from_slice(&[0xab, 0xcd, 0x00, 0x00]);
    buf.pos = 508;
    let mut h = DnsHeader::new();
    h.question_count = 9;
    assert_eq!(h.read(&mut buf), Err(DnsError::EndOfBuffer));
    assert_eq!(h.id, 0xabcd);
    assert_eq!(h.question_count, 9);
    assert_eq!(buf.pos, 512);
}

#[test]
fn header_written_reads_back() {
    let mut h = DnsHeader::new();
    h.id = 4242;
    h.query_or_response = true;
    h.opcode = 5;
    h.authoritative_answer = true;
    h.truncation = true;
    h.recursion_desired = true;
    h.recursion_available = true;
    h.z = true;
    h.checking_disabled = true;
    h.authenticated_data = true;
    h.response_code = ResultCode::REFUSED;
    h.question_count = 1;
    h.answer_count = 2;
    h.authority_count = 3;
    h.additional_count = 65535;
    let mut buf = BytePacketBuffer::new();
    assert_eq!(h.write(&mut buf), Ok(()));
    assert_eq!(buf.pos, 12);
    assert_eq!(&buf.buf[2..4], &[0xaf, 0xf5]);
    buf.pos = 0;
    let mut back = DnsHeader::new();
    back.read(&mut buf).unwrap();
    assert_eq!(back, h);
}

#[test]
fn header_opcode_keeps_four_bits() {
    let mut h = DnsHeader::new();
    h.opcode = 0x1f;
    let mut buf = BytePacketBuffer::new();
    h.write(&mut buf).unwrap();
    buf.pos = 0;
    let mut back = DnsHeader::new();
    back.read(&mut buf).unwrap();
    assert_eq!(back.opcode, 0x0f);
}

#[test]
fn question_reads_name_type_and_class() {
    let mut buf = buffer_with(&[3, b'c', b'o', b'm', 0, 0, 15, 0, 1]);
    let mut q = DnsQuestion::new(String::new(), QueryType::UNKNOWN(0));
    assert_eq!(q.read(&mut buf), Ok(()));
    assert_eq!(q, DnsQuestion::new("com".to_string(), QueryType::MX));
    assert_eq!(buf.pos, 9);
}

#[test]
fn question_written_reads_back() {
    let q = DnsQuestion::new("example.net".to_string(), QueryType::AAAA);
    let mut buf = BytePacketBuffer::new();
    assert_eq!(q.write(&mut buf), Ok(()));
    assert_eq!(buf.pos, 17);
    buf.pos = 0;
    let mut back = DnsQuestion::new(String::new(), QueryType::UNKNOWN(0));
    back.read(&mut buf).unwrap();
    assert_eq!(back, q);
}

#[test]
fn record_read_a() {
    let mut buf = buffer_with(&google_response());
    buf.pos = 28;
    let rec = DnsRecord::read(&mut buf).unwrap();
    assert_eq!(rec, DnsRecord::A { domain: "google.com".to_string(), addr: 0x8efa_48ce, ttl: 300 });
    assert_eq!(buf.pos, 44);
}

#[test]
fn record_read_unknown_skips_its_data() {
    let mut buf = buffer_with(&[1, b'x', 0, 0, 16, 0, 1, 0, 0, 0, 7, 0, 3, b'a', b'b', b'c', 0xee]);
    let rec = DnsRecord::read(&mut buf).unwrap();
    assert_eq!(rec, DnsRecord::UNKNOWN { domain: "x".to_string(), qtype: 16, data_len: 3, ttl: 7 });
    assert_eq!(buf.pos, 16);
}

#[test]
fn record_read_cname() {
    let mut buf = buffer_with(&[1, b'x', 0, 0, 5, 0, 1, 0, 0, 0, 1, 0, 3, 1, b'y', 0]);
    let rec = DnsRecord::read(&mut buf).unwrap();
    assert_eq!(rec, DnsRecord::CNAME { domain: "x".to_string(), host: "y".to_string(), ttl: 1 });
    assert_eq!(buf.pos, 16);

    let mut buf = buffer_with(&[1, b'a', 0, 0, 5, 0, 1, 0, 0, 0, 60, 0, 3, 1, 99, 0]);
    assert_eq!(
        DnsRecord::read(&mut buf),
        Ok(DnsRecord::CNAME { domain: "a".to_string(), host: "c".to_string(), ttl: 60 })
    );
    assert_eq!(buf.pos, 16);
}

#[test]
fn record_read_mx_and_aaaa() {
    let mut buf = buffer_with(&[1, b'x', 0, 0, 15, 0, 1, 0, 0, 0, 2, 0, 5, 0, 10, 1, b'm', 0]);
    let rec = DnsRecord::read(&mut buf).unwrap();
    assert_eq!(rec, DnsRecord::MX { domain: "x".to_string(), priority: 10, host: "m".to_string(), ttl: 2 });

    let mut bytes = vec![1, b'v', 0, 0, 28, 0, 1, 0, 0, 0, 3, 0, 16];
    bytes.extend_from_slice(&[0x20, 0x01, 0x0d, 0xb8, 0, 0, 0, 0, 0, 0, 0, 0, 0, 0, 0, 1]);
    let mut buf = buffer_with(&bytes);
    let rec = DnsRecord::read(&mut buf).unwrap();
    assert_eq!(
        rec,
        DnsRecord::AAAA { domain: "v".to_string(), addr: [0x2001, 0x0db8, 0, 0, 0, 0, 0, 1], ttl: 3 }
    );
    assert_eq!(buf.pos, 29);
}

#[test]
fn record_read_truncated_fails() {
    let mut buf = BytePacketBuffer::new();
    buf.buf[505..512].copy_from_slice(&[1, b'x', 0, 0, 1, 0, 1]);
    buf.pos = 505;
    assert_eq!(DnsRecord::read(&mut buf), Err(DnsError::EndOfBuffer));
    assert_eq!(buf.pos, 512);
}

#[test]
fn record_write_ns_reads_back() {
    let rec = DnsRecord::NS { domain: "example.com".to_string(), host: "ns1.example.com".to_string(), ttl: 3600 };
    let mut buf = BytePacketBuffer::new();
    let size = rec.write(&mut buf).unwrap();
    assert_eq!(size, 40);
    assert_eq!(buf.pos, size);
    // the data length, big-endian: the 17 bytes of the host name
    assert_eq!(&buf.buf[21..23], &[0, 17]);
    buf.pos = 0;
    assert_eq!(DnsRecord::read(&mut buf), Ok(rec));
    assert_eq!(buf.pos, size);
}

#[test]
fn record_write_mx_reads_back() {
    let rec = DnsRecord::MX { domain: "a.b".to_string(), priority: 5, host: "mx.a.b".to_string(), ttl: 60 };
    let mut buf = BytePacketBuffer::new();
    let size = rec.write(&mut buf).unwrap();
    assert_eq!(size, 25);
    assert_eq!(&buf.buf[13..15], &[0, 10]);
    buf.pos = 0;
    assert_eq!(DnsRecord::read(&mut buf), Ok(rec));
}

#[test]
fn record_write_a_reads_back() {
    let rec = DnsRecord::A { domain: "a".to_string(), addr: 0x0a00_0001, ttl: 9 };
    let mut buf = BytePacketBuffer::new();
    assert_eq!(rec.write(&mut buf), Ok(17));
    assert_eq!(&buf.buf[..18], &[1, b'a', 0, 0, 1, 0, 1, 0, 0, 0, 9, 0, 4, 10, 0, 0, 1, 0]);
    buf.pos = 0;
    assert_eq!(DnsRecord::read(&mut buf), Ok(rec));
    assert_eq!(buf.pos, 17);

    let rec = DnsRecord::A { domain: "a".to_string(), addr: 0x0102_0304, ttl: 60 };
    let mut buf = BytePacketBuffer::new();
    assert_eq!(rec.write(&mut buf), Ok(17));
    assert_eq!(buf.pos, 17);
    assert_eq!(&buf.buf[..17], &[1, 97, 0, 0, 1, 0, 1, 0, 0, 0, 60, 0, 4, 1, 2, 3, 4]);
    assert!(buf.buf[17..].iter().all(|&b| b == 0));
}

#[test]
fn record_write_aaaa_reads_back_and_unknown_writes_nothing() {
    let rec = DnsRecord::AAAA { domain: "a".to_string(), addr: [1, 2, 3, 4, 5, 6, 7, 8], ttl: 1 };
    let mut buf = BytePacketBuffer::new();
    assert_eq!(rec.write(&mut buf), Ok(29));
    assert_eq!(&buf.buf[3..5], &[0, 28]);
    assert_eq!(&buf.buf[11..13], &[0, 16]);
    assert_eq!(&buf.buf[13..17], &[0, 1, 0, 2]);
    buf.pos = 0;
    assert_eq!(DnsRecord::read(&mut buf), Ok(rec));
    assert_eq!(buf.pos, 29);

    let rec = DnsRecord::AAAA { domain: "a".to_string(), addr: [0, 0, 0, 0, 0, 0, 0, 1], ttl: 60 };
    let mut buf = BytePacketBuffer::new();
    assert_eq!(rec.write(&mut buf), Ok(29));
    assert_eq!(buf.pos, 29);
    assert_eq!(&buf.buf[0..13], &[1, 97, 0, 0, 28, 0, 1, 0, 0, 0, 60, 0, 16]);
    assert_eq!(&buf.buf[13..29], &[0, 0, 0, 0, 0, 0, 0, 0, 0, 0, 0, 0, 0, 0, 0, 1]);

    let unknown = DnsRecord::UNKNOWN { domain: "a".to_string(), qtype: 99, data_len: 0, ttl: 0 };
    let mut buf = BytePacketBuffer::new();
    assert_eq!(unknown.write(&mut buf), Ok(0));
    assert_eq!(buf.pos, 0);
}

#[test]
fn record_write_cname_reads_back() {
    let rec = DnsRecord::CNAME { domain: "a".to_string(), host: "b".to_string(), ttl: 1 };
    let mut buf = BytePacketBuffer::new();
    assert_eq!(rec.write(&mut buf), Ok(16));
    assert_eq!(&buf.buf[3..5], &[0, 5]);
    assert_eq!(&buf.buf[11..13], &[0, 3]);
    buf.pos = 0;
    assert_eq!(DnsRecord::read(&mut buf), Ok(rec));
    assert_eq!(buf.pos, 16);
}

#[test]
fn record_write_ns_has_a_big_endian_data_length() {
    let rec = DnsRecord::NS { domain: "a".to_string(), host: "ns".to_string(), ttl: 60 };
    let mut buf = BytePacketBuffer::new();
    assert_eq!(rec.write(&mut buf), Ok(17));
    assert_eq!(buf.pos, 17);
    assert_eq!(&buf.buf[0..17], &[1, 97, 0, 0, 2, 0, 1, 0, 0, 0, 60, 0, 4, 2, 110, 115, 0]);
    assert!(buf.buf[17..].iter().all(|&b| b == 0));
}

#[test]
fn record_write_lowercases_on_read() {
    let rec = DnsRecord::NS { domain: "Example.COM".to_string(), host: "NS1.example.com".to_string(), ttl: 5 };
    let mut buf = BytePacketBuffer::new();
    let size = rec.write(&mut buf).unwrap();
    buf.pos = 0;
    assert_eq!(
        DnsRecord::read(&mut buf),
        Ok(DnsRecord::NS { domain: "example.com".to_string(), host: "ns1.example.com".to_string(), ttl: 5 })
    );
    assert_eq!(buf.pos, size);
}

#[test]
fn record_write_past_the_end_fails() {
    let rec = DnsRecord::NS { domain: "example.com".to_string(), host: "ns.example.com".to_string(), ttl: 1 };
    let mut buf = BytePacketBuffer::new();
    buf.pos = 490;
    assert_eq!(rec.write(&mut buf), Err(DnsError::EndOfBuffer));
    assert_eq!(buf.pos, 512);
}

#[test]
fn packet_from_buffer_parses_a_response() {
    let mut buf = buffer_with(&google_response());
    let p = DnsPacket::from_buffer(&mut buf).unwrap();
    assert_eq!(p.header.id, 0x1234);
    assert!(p.header.query_or_response);
    assert_eq!(p.questions, vec![DnsQuestion::new("google.com".to_string(), QueryType::A)]);
    assert_eq!(p.answers, vec![DnsRecord::A { domain: "google.com".to_string(), addr: 0x8efa_48ce, ttl: 300 }]);
    assert!(p.authorities.is_empty() && p.resources.is_empty());
    assert_eq!(buf.pos, 44);
}

#[test]
fn packet_from_buffer_fails_on_missing_records() {
    let mut bytes = google_response();
    bytes[7] = 3; // three answers, one present; the rest reads zero bytes
    bytes.truncate(44);
    let mut buf = buffer_with(&bytes);
    let p = DnsPacket::from_buffer(&mut buf);
    // the zero bytes read as empty names of type 0, then run out of records
    assert!(p.is_ok());
    let mut buf = BytePacketBuffer::new();
    buf.pos = 506;
    assert_eq!(DnsPacket::from_buffer(&mut buf).map(|_| ()), Err(DnsError::EndOfBuffer));
}

#[test]
fn packet_write_sets_the_counts_and_reads_back() {
    let mut p = DnsPacket::new();
    p.header.id = 77;
    p.header.question_count = 9;
    p.questions.push(DnsQuestion::new("example.com".to_string(), QueryType::NS));
    p.authorities.push(DnsRecord::NS { domain: "example.com".to_string(), host: "ns.example.com".to_string(), ttl: 10 });
    p.answers.push(DnsRecord::A { domain: "example.com".to_string(), addr: 0x5db8_d822, ttl: 30 });
    p.answers.push(DnsRecord::CNAME { domain: "www.example.com".to_string(), host: "example.com".to_string(), ttl: 30 });
    p.answers.push(DnsRecord::AAAA { domain: "example.com".to_string(), addr: [0x2606, 0x2800, 0x220, 1, 0x248, 0x1893, 0x25c8, 0x1946], ttl: 30 });
    p.resources.push(DnsRecord::MX { domain: "example.com".to_string(), priority: 1, host: "mx.example.com".to_string(), ttl: 20 });
    let mut buf = BytePacketBuffer::new();
    assert_eq!(p.write(&mut buf), Ok(()));
    assert_eq!(p.header.question_count, 1);
    assert_eq!(p.header.answer_count, 3);
    assert_eq!(p.header.authority_count, 1);
    assert_eq!(p.header.additional_count, 1);
    let end = buf.pos;
    buf.pos = 0;
    let back = DnsPacket::from_buffer(&mut buf).unwrap();
    assert_eq!(back.header, p.header);
    assert_eq!(back.questions, p.questions);
    assert_eq!(back.answers, p.answers);
    assert_eq!(back.authorities, p.authorities);
    assert_eq!(back.resources, p.resources);
    assert_eq!(buf.pos, end);
}

#[test]
fn packet_new_and_default_are_empty() {
    let p = DnsPacket::default();
    assert_eq!(p.header, DnsHeader::new());
    assert!(p.questions.is_empty() && p.answers.is_empty());
    let q = DnsPacket::new();
    assert!(q.authorities.is_empty() && q.resources.is_empty());
}
