use vstd::prelude::*;
use vstd::utf8::encode_utf8;

use crate::types::bytepacket_buffer::{BytePacketBuffer, Result};
use crate::types::error::DnsError;
use crate::types::query_type::{query_type_num, query_type_of, QueryType};
use crate::types::text::lowercase_ascii;
use crate::types::wire::{
    be32, buf_wf, emit, holds_at, labels_fit, lemma_emit_empty, lemma_emit_holds, lemma_emit_then,
    lemma_emit_update, lemma_holds_concat, lemma_peek_held, lemma_plan_fits, lemma_qname_roundtrip, lemma_scan_plan,
    lemma_lowercase_name_text, lemma_u16_roundtrip, lemma_u32_roundtrip, name_text, peek, qname_plan, qname_write, take_name,
    take_u16, take_u32, then_emit, then_name, u16_bytes, u32_bytes, BufState,
};

verus! {

/// A resource record (RFC 1035, section 3.2.1). IPv4 addresses are held as
/// their 32-bit big-endian number, IPv6 addresses as their eight 16-bit
/// segments.
#[derive(Debug, Clone, PartialEq, Eq, Hash, PartialOrd, Ord)]
#[allow(inconsistent_fields)]
pub enum DnsRecord {
    UNKNOWN { domain: String, qtype: u16, data_len: u16, ttl: u32 },
    A { domain: String, addr: u32, ttl: u32 },
    NS { domain: String, host: String, ttl: u32 },
    CNAME { domain: String, host: String, ttl: u32 },
    MX { domain: String, priority: u16, host: String, ttl: u32 },
    AAAA { domain: String, addr: [u16; 8], ttl: u32 },
}

/// A resource record with its names as character sequences.
#[allow(inconsistent_fields)]
pub enum RecordView {
    UNKNOWN { domain: Seq<char>, qtype: u16, data_len: u16, ttl: u32 },
    A { domain: Seq<char>, addr: u32, ttl: u32 },
    NS { domain: Seq<char>, host: Seq<char>, ttl: u32 },
    CNAME { domain: Seq<char>, host: Seq<char>, ttl: u32 },
    MX { domain: Seq<char>, priority: u16, host: Seq<char>, ttl: u32 },
    AAAA { domain: Seq<char>, addr: Seq<u16>, ttl: u32 },
}

impl View for DnsRecord {
    type V = RecordView;

    open spec fn view(&self) -> RecordView {
        match self {
            DnsRecord::UNKNOWN { domain, qtype, data_len, ttl } => RecordView::UNKNOWN {
                domain: domain@,
                qtype: *qtype,
                data_len: *data_len,
                ttl: *ttl,
            },
            DnsRecord::A { domain, addr, ttl } => RecordView::A {
                domain: domain@,
                addr: *addr,
                ttl: *ttl,
            },
            DnsRecord::NS { domain, host, ttl } => RecordView::NS {
                domain: domain@,
                host: host@,
                ttl: *ttl,
            },
            DnsRecord::CNAME { domain, host, ttl } => RecordView::CNAME {
                domain: domain@,
                host: host@,
                ttl: *ttl,
            },
            DnsRecord::MX { domain, priority, host, ttl } => RecordView::MX {
                domain: domain@,
                priority: *priority,
                host: host@,
                ttl: *ttl,
            },
            DnsRecord::AAAA { domain, addr, ttl } => RecordView::AAAA {
                domain: domain@,
                addr: addr@,
                ttl: *ttl,
            },
        }
    }
}

/// The eight 16-bit segments of an IPv6 address read as four 32-bit values.
pub open spec fn segments_of(r1: u32, r2: u32, r3: u32, r4: u32) -> Seq<u16> {
    seq![
        (r1 / 0x10000) as u16,
        (r1 % 0x10000) as u16,
        (r2 / 0x10000) as u16,
        (r2 % 0x10000) as u16,
        (r3 / 0x10000) as u16,
        (r3 % 0x10000) as u16,
        (r4 / 0x10000) as u16,
        (r4 % 0x10000) as u16,
    ]
}

/// The two 16-bit halves of `v`, as the reader of an AAAA record takes them.
proof fn lemma_split_segments(v: u32)
    ensures
        ((v >> 16u32) & 0xffffu32) as u16 == v / 0x10000,
        (v & 0xffffu32) as u16 == v % 0x10000,
{
    assert(((v >> 16u32) & 0xffffu32) as u16 == v / 0x10000) by (bit_vector);
    assert((v & 0xffffu32) as u16 == v % 0x10000) by (bit_vector);
}

/// Reading the data of a record of type `qtype` with owner `domain` and
/// time to live `ttl`, which says it is `data_len` bytes long, at the
/// cursor. A record whose type is not interpreted is skipped by its stated
/// length.
pub open spec fn take_record_data(
    st: BufState,
    domain: Seq<char>,
    qtype: u16,
    ttl: u32,
    data_len: u16,
) -> (BufState, Result<RecordView>) {
    match query_type_of(qtype) {
        QueryType::UNKNOWN(_) => (
            BufState { bytes: st.bytes, pos: st.pos + data_len },
            Ok(RecordView::UNKNOWN { domain, qtype, data_len, ttl }),
        ),
        QueryType::A => {
            let (s1, addr) = take_u32(st);
            match addr {
                None => (s1, Err(DnsError::EndOfBuffer)),
                Some(addr) => (s1, Ok(RecordView::A { domain, addr, ttl })),
            }
        },
        QueryType::AAAA => {
            let (s1, r1) = take_u32(st);
            let (s2, r2) = take_u32(s1);
            let (s3, r3) = take_u32(s2);
            let (s4, r4) = take_u32(s3);
            if r1 is None {
                (s1, Err(DnsError::EndOfBuffer))
            } else if r2 is None {
                (s2, Err(DnsError::EndOfBuffer))
            } else if r3 is None {
                (s3, Err(DnsError::EndOfBuffer))
            } else if r4 is None {
                (s4, Err(DnsError::EndOfBuffer))
            } else {
                (
                    s4,
                    Ok(
                        RecordView::AAAA {
                            domain,
                            addr: segments_of(r1->0, r2->0, r3->0, r4->0),
                            ttl,
                        },
                    ),
                )
            }
        },
        QueryType::NS => {
            let (s1, host) = take_name(st);
            match host {
                Err(e) => (s1, Err(e)),
                Ok(host) => (s1, Ok(RecordView::NS { domain, host, ttl })),
            }
        },
        QueryType::CNAME => {
            let (s1, host) = take_name(st);
            match host {
                Err(e) => (s1, Err(e)),
                Ok(host) => (s1, Ok(RecordView::CNAME { domain, host, ttl })),
            }
        },
        QueryType::MX => {
            let (s1, priority) = take_u16(st);
            match priority {
                None => (s1, Err(DnsError::EndOfBuffer)),
                Some(priority) => {
                    let (s2, host) = take_name(s1);
                    match host {
                        Err(e) => (s2, Err(e)),
                        Ok(host) => (s2, Ok(RecordView::MX { domain, priority, host, ttl })),
                    }
                },
            }
        },
    }
}

/// Reading a resource record at the cursor: its owner name, then type,
/// class (ignored), time to live and data length, then its data.
#[verifier::opaque]
pub open spec fn take_record(st: BufState) -> (BufState, Result<RecordView>) {
    let (s1, domain) = take_name(st);
    let (s2, qtype) = take_u16(s1);
    let (s3, class) = take_u16(s2);
    let (s4, ttl) = take_u32(s3);
    let (s5, data_len) = take_u16(s4);
    match domain {
        Err(e) => (s1, Err(e)),
        Ok(domain) => if qtype is None {
            (s2, Err(DnsError::EndOfBuffer))
        } else if class is None {
            (s3, Err(DnsError::EndOfBuffer))
        } else if ttl is None {
            (s4, Err(DnsError::EndOfBuffer))
        } else if data_len is None {
            (s5, Err(DnsError::EndOfBuffer))
        } else {
            take_record_data(s5, domain, qtype->0, ttl->0, data_len->0)
        },
    }
}

/// Writing each of the 16-bit values `segs` in turn at the cursor.
#[verifier::opaque]
pub open spec fn put_segments(st: BufState, segs: Seq<u16>) -> (BufState, Result<()>)
    decreases segs.len(),
{
    if segs.len() == 0 {
        (st, Ok(()))
    } else {
        then_emit(put_segments(st, segs.drop_last()), u16_bytes(segs.last()))
    }
}

/// After a write that may have failed, writing the values `segs` as
/// `put_segments` does.
pub open spec fn then_segments(prev: (BufState, Result<()>), segs: Seq<u16>) -> (BufState, Result<()>) {
    match prev.1 {
        Err(e) => prev,
        Ok(_) => put_segments(prev.0, segs),
    }
}

/// Once writing the segments has failed, the segments after it change
/// nothing.
proof fn lemma_segments_stuck(st: BufState, segs: Seq<u16>, k: int)
    requires
        0 <= k <= segs.len(),
        put_segments(st, segs.take(k)).1 is Err,
    ensures
        put_segments(st, segs) == put_segments(st, segs.take(k)),
    decreases segs.len() - k,
{
    reveal(put_segments);
    if k < segs.len() {
        assert(segs.take(k + 1).drop_last() =~= segs.take(k));
        lemma_segments_stuck(st, segs, k + 1);
    } else {
        assert(segs.take(k) =~= segs);
    }
}

/// The outcome of a record write that started at `start`: on success, the
/// number of bytes the cursor moved.
pub open spec fn written_from(start: BufState, w: (BufState, Result<()>)) -> (BufState, Result<usize>) {
    (
        w.0,
        match w.1 {
            Ok(_) => Ok((w.0.pos - start.pos) as usize),
            Err(e) => Err(e),
        },
    )
}

/// Writing a record's header: owner name, type `qtype`, class 1 (IN) and
/// time to live.
#[verifier::opaque]
pub open spec fn record_head(st: BufState, domain: Seq<char>, qtype: u16, ttl: u32) -> (
    BufState,
    Result<()>,
) {
    then_emit(
        then_emit(then_emit(qname_write(st, encode_utf8(domain)), u16_bytes(qtype)), u16_bytes(1)),
        u32_bytes(ttl),
    )
}

/// Writing, at the cursor, record data made of a placeholder data length,
/// `data_head` and the name `host`: once the name is written, the length
/// field is set, big-endian, to the number of data bytes after it.
#[verifier::opaque]
pub open spec fn put_named_data(st: BufState, data_head: Seq<u8>, host: Seq<char>) -> (
    BufState,
    Result<()>,
) {
    let body = then_name(then_emit(then_emit((st, Ok(())), u16_bytes(0)), data_head), host);
    let size = u16_bytes((body.0.pos - st.pos - 2) as u16);
    match body.1 {
        Err(e) => body,
        Ok(_) => (
            BufState {
                bytes: body.0.bytes.update(st.pos, size[0]).update(st.pos + 1, size[1]),
                pos: body.0.pos,
            },
            Ok(()),
        ),
    }
}

/// After a write that may have failed, writing record data as
/// `put_named_data` does.
pub open spec fn then_named(prev: (BufState, Result<()>), data_head: Seq<u8>, host: Seq<char>) -> (
    BufState,
    Result<()>,
) {
    match prev.1 {
        Err(e) => prev,
        Ok(_) => put_named_data(prev.0, data_head, host),
    }
}

/// Writing the record `rec` at the cursor: its header (owner name, type,
/// class 1, time to live), then its data length and data. A record of a
/// type that is not interpreted writes nothing.
pub open spec fn put_record(st: BufState, rec: RecordView) -> (BufState, Result<usize>) {
    match rec {
        RecordView::UNKNOWN { .. } => (st, Ok(0)),
        RecordView::A { domain, addr, ttl } => written_from(
            st,
            then_emit(then_emit(record_head(st, domain, 1, ttl), u16_bytes(4)), u32_bytes(addr)),
        ),
        RecordView::NS { domain, host, ttl } => written_from(
            st,
            then_named(record_head(st, domain, 2, ttl), Seq::empty(), host),
        ),
        RecordView::CNAME { domain, host, ttl } => written_from(
            st,
            then_named(record_head(st, domain, 5, ttl), Seq::empty(), host),
        ),
        RecordView::MX { domain, priority, host, ttl } => written_from(
            st,
            then_named(record_head(st, domain, 15, ttl), u16_bytes(priority), host),
        ),
        RecordView::AAAA { domain, addr, ttl } => written_from(
            st,
            then_segments(then_emit(record_head(st, domain, 28, ttl), u16_bytes(16)), addr),
        ),
    }
}

/// The bytes of a record's header: owner name with bytes `d`, type
/// `qtype`, class 1 and time to live `ttl`.
pub open spec fn head_bytes(d: Seq<u8>, qtype: u16, ttl: u32) -> Seq<u8> {
    qname_plan(d).0 + u16_bytes(qtype) + u16_bytes(1) + u32_bytes(ttl)
}

/// The bytes of the 16-bit values `segs`, each big-endian.
pub open spec fn segments_bytes(segs: Seq<u16>) -> Seq<u8>
    decreases segs.len(),
{
    if segs.len() == 0 {
        Seq::empty()
    } else {
        segments_bytes(segs.drop_last()) + u16_bytes(segs.last())
    }
}

/// The owner name, type number and time to live of a record.
pub open spec fn record_head_parts(r: RecordView) -> (Seq<char>, u16, u32) {
    match r {
        RecordView::UNKNOWN { domain, qtype, ttl, .. } => (domain, qtype, ttl),
        RecordView::A { domain, ttl, .. } => (domain, 1u16, ttl),
        RecordView::NS { domain, ttl, .. } => (domain, 2u16, ttl),
        RecordView::CNAME { domain, ttl, .. } => (domain, 5u16, ttl),
        RecordView::MX { domain, ttl, .. } => (domain, 15u16, ttl),
        RecordView::AAAA { domain, ttl, .. } => (domain, 28u16, ttl),
    }
}

/// The data `data` of a record preceded by its length, a big-endian 16-bit
/// value.
pub open spec fn with_length(data: Seq<u8>) -> Seq<u8> {
    u16_bytes(data.len() as u16) + data
}

/// The data length and data of a record, as they are written.
pub open spec fn record_data_bytes(r: RecordView) -> Seq<u8> {
    match r {
        RecordView::UNKNOWN { .. } => Seq::empty(),
        RecordView::A { addr, .. } => with_length(u32_bytes(addr)),
        RecordView::NS { host, .. } => with_length(qname_plan(encode_utf8(host)).0),
        RecordView::CNAME { host, .. } => with_length(qname_plan(encode_utf8(host)).0),
        RecordView::MX { priority, host, .. } => with_length(
            u16_bytes(priority) + qname_plan(encode_utf8(host)).0,
        ),
        RecordView::AAAA { addr, .. } => with_length(segments_bytes(addr)),
    }
}

/// A record that can be written and read back: of a type that is
/// interpreted, with names whose labels have 1 to 63 bytes, and, for an
/// AAAA record, eight segments.
pub open spec fn record_fits(r: RecordView) -> bool {
    &&& labels_fit(encode_utf8(record_head_parts(r).0))
    &&& match r {
        RecordView::UNKNOWN { .. } => false,
        RecordView::NS { host, .. } => labels_fit(encode_utf8(host)),
        RecordView::CNAME { host, .. } => labels_fit(encode_utf8(host)),
        RecordView::MX { host, .. } => labels_fit(encode_utf8(host)),
        RecordView::AAAA { addr, .. } => addr.len() == 8,
        RecordView::A { .. } => true,
    }
}

/// The bytes that writing the record `r` puts into the buffer: its header,
/// then its data length and data.
pub open spec fn record_bytes(r: RecordView) -> Seq<u8> {
    match r {
        RecordView::UNKNOWN { .. } => Seq::empty(),
        _ => head_bytes(
            encode_utf8(record_head_parts(r).0),
            record_head_parts(r).1,
            record_head_parts(r).2,
        ) + record_data_bytes(r),
    }
}

/// What reading back the written record `r` gives: a record of the same
/// kind with its names as their labels' text and its other fields as they
/// were.
pub open spec fn record_read_back(r: RecordView) -> RecordView {
    match r {
        RecordView::A { domain, addr, ttl } => RecordView::A {
            domain: name_text(encode_utf8(domain)),
            addr,
            ttl,
        },
        RecordView::NS { domain, host, ttl } => RecordView::NS {
            domain: name_text(encode_utf8(domain)),
            host: name_text(encode_utf8(host)),
            ttl,
        },
        RecordView::CNAME { domain, host, ttl } => RecordView::CNAME {
            domain: name_text(encode_utf8(domain)),
            host: name_text(encode_utf8(host)),
            ttl,
        },
        RecordView::MX { domain, priority, host, ttl } => RecordView::MX {
            domain: name_text(encode_utf8(domain)),
            priority,
            host: name_text(encode_utf8(host)),
            ttl,
        },
        RecordView::AAAA { domain, addr, ttl } => RecordView::AAAA {
            domain: name_text(encode_utf8(domain)),
            addr,
            ttl,
        },
        _ => r,
    }
}

/// Writing the header of a record whose name fits is writing its bytes.
proof fn lemma_put_head(st: BufState, domain: Seq<char>, qtype: u16, ttl: u32)
    requires
        buf_wf(st),
        labels_fit(encode_utf8(domain)),
        st.pos + encode_utf8(domain).len() + 10 <= 512,
    ensures
        record_head(st, domain, qtype, ttl) == (
            emit(st, head_bytes(encode_utf8(domain), qtype, ttl)),
            Ok::<(), DnsError>(()),
        ),
        head_bytes(encode_utf8(domain), qtype, ttl).len() == encode_utf8(domain).len() + 10,
        buf_wf(emit(st, head_bytes(encode_utf8(domain), qtype, ttl))),
{
    reveal(record_head);
    let d = encode_utf8(domain);
    lemma_plan_fits(d);
    lemma_qname_roundtrip(st, d);
    let a1 = qname_plan(d).0;
    let a2 = a1 + u16_bytes(qtype);
    let a3 = a2 + u16_bytes(1);
    lemma_emit_then(st, a1, u16_bytes(qtype));
    lemma_emit_then(st, a2, u16_bytes(1));
    lemma_emit_then(st, a3, u32_bytes(ttl));
    lemma_emit_then(st, a3 + u32_bytes(ttl), Seq::empty());
}

/// Writing record data made of `data_head` and a name that fits, where it
/// fits, is writing the data with its length in front.
proof fn lemma_put_named_data(st: BufState, data_head: Seq<u8>, host: Seq<char>)
    requires
        buf_wf(st),
        labels_fit(encode_utf8(host)),
        st.pos + data_head.len() + encode_utf8(host).len() + 4 <= 512,
    ensures
        put_named_data(st, data_head, host) == (
            emit(st, with_length(data_head + qname_plan(encode_utf8(host)).0)),
            Ok::<(), DnsError>(()),
        ),
{
    reveal(put_named_data);
    let h = encode_utf8(host);
    lemma_plan_fits(h);
    let ph = qname_plan(h).0;
    let a1 = u16_bytes(0);
    let a2 = a1 + data_head;
    lemma_emit_empty(st);
    lemma_emit_then(st, Seq::empty(), a1);
    assert(Seq::<u8>::empty() + a1 =~= a1);
    lemma_emit_then(st, a1, data_head);
    lemma_emit_then(st, a2, ph);
    lemma_qname_roundtrip(emit(st, a2), h);
    let all0 = a2 + ph;
    let size = u16_bytes((data_head.len() + ph.len()) as u16);
    lemma_emit_update(st, all0, 0, size[0]);
    lemma_emit_update(st, all0.update(0, size[0]), 1, size[1]);
    assert(all0.update(0, size[0]).update(1, size[1]) =~= with_length(data_head + ph));
}

/// Writing 16-bit values where they fit is writing their bytes.
proof fn lemma_put_segments(st: BufState, segs: Seq<u16>)
    requires
        buf_wf(st),
        st.pos + 2 * segs.len() <= 512,
    ensures
        put_segments(st, segs) == (emit(st, segments_bytes(segs)), Ok::<(), DnsError>(())),
        segments_bytes(segs).len() == 2 * segs.len(),
    decreases segs.len(),
{
    reveal(put_segments);
    if segs.len() == 0 {
        lemma_emit_empty(st);
    } else {
        lemma_put_segments(st, segs.drop_last());
        lemma_emit_then(st, segments_bytes(segs.drop_last()), u16_bytes(segs.last()));
    }
}

/// The length of the bytes of a record that can be written and read back.
pub proof fn lemma_record_bytes_len(r: RecordView)
    requires
        record_fits(r),
    ensures
        record_bytes(r).len() >= 12,
        record_bytes(r).len() == encode_utf8(record_head_parts(r).0).len() + 10
            + record_data_bytes(r).len(),
{
    let d = encode_utf8(record_head_parts(r).0);
    lemma_plan_fits(d);
    if r is NS || r is CNAME || r is MX {
        lemma_plan_fits(encode_utf8(
            match r {
                RecordView::NS { host, .. } => host,
                RecordView::CNAME { host, .. } => host,
                RecordView::MX { host, .. } => host,
                _ => Seq::empty(),
            },
        ));
    }
    if r is AAAA {
        lemma_segments_bytes_len(r->AAAA_addr);
    }
}

/// The values `segs` take two bytes each.
proof fn lemma_segments_bytes_len(segs: Seq<u16>)
    ensures
        segments_bytes(segs).len() == 2 * segs.len(),
    decreases segs.len(),
{
    if segs.len() > 0 {
        lemma_segments_bytes_len(segs.drop_last());
    }
}

/// Writing a record that can be written and read back, where it fits, is
/// writing its bytes.
pub proof fn lemma_put_fitting_record(st: BufState, r: RecordView)
    requires
        buf_wf(st),
        record_fits(r),
        st.pos + record_bytes(r).len() <= 512,
    ensures
        put_record(st, r) == (emit(st, record_bytes(r)), Ok::<usize, DnsError>(
            record_bytes(r).len() as usize,
        )),
{
    lemma_record_bytes_len(r);
    let (domain, qtype, ttl) = record_head_parts(r);
    let d = encode_utf8(domain);
    let hb = head_bytes(d, qtype, ttl);
    let db = record_data_bytes(r);
    lemma_put_head(st, domain, qtype, ttl);
    let s1 = emit(st, hb);
    lemma_emit_then(st, hb, db);
    match r {
        RecordView::A { addr, .. } => {
            lemma_emit_then(s1, u16_bytes(4), u32_bytes(addr));
            assert(db =~= u16_bytes(4) + u32_bytes(addr));
        },
        RecordView::NS { host, .. } => {
            lemma_plan_fits(encode_utf8(host));
            lemma_put_named_data(s1, Seq::empty(), host);
            assert(Seq::<u8>::empty() + qname_plan(encode_utf8(host)).0 =~= qname_plan(
                encode_utf8(host),
            ).0);
        },
        RecordView::CNAME { host, .. } => {
            lemma_plan_fits(encode_utf8(host));
            lemma_put_named_data(s1, Seq::empty(), host);
            assert(Seq::<u8>::empty() + qname_plan(encode_utf8(host)).0 =~= qname_plan(
                encode_utf8(host),
            ).0);
        },
        RecordView::MX { priority, host, .. } => {
            lemma_plan_fits(encode_utf8(host));
            lemma_put_named_data(s1, u16_bytes(priority), host);
        },
        RecordView::AAAA { addr, .. } => {
            lemma_segments_bytes_len(addr);
            assert(db =~= u16_bytes(16) + segments_bytes(addr));
            lemma_emit_then(s1, u16_bytes(16), segments_bytes(addr));
            lemma_put_segments(emit(s1, u16_bytes(16)), addr);
        },
        _ => {},
    }
}

/// Where `b` holds the bytes of the values `segs`, it holds each value's
/// two bytes in turn.
proof fn lemma_segments_held(b: Seq<u8>, at: int, segs: Seq<u16>, i: int)
    requires
        holds_at(b, at, segments_bytes(segs)),
        0 <= i < segs.len(),
    ensures
        holds_at(b, at + 2 * i, u16_bytes(segs[i])),
    decreases segs.len(),
{
    let init = segs.drop_last();
    lemma_segments_bytes_len(init);
    lemma_holds_concat(b, at, segments_bytes(init), u16_bytes(segs.last()));
    if i < segs.len() - 1 {
        lemma_segments_held(b, at, init, i);
    }
}

/// A 32-bit value read from the bytes of two 16-bit values splits back into
/// them.
proof fn lemma_segment_pair(hi: u16, lo: u16)
    ensures
        be32(u16_bytes(hi) + u16_bytes(lo)) == hi * 0x10000 + lo,
        ((hi * 0x10000 + lo) as u32 / 0x10000) as u16 == hi,
        ((hi * 0x10000 + lo) as u32 % 0x10000) as u16 == lo,
{
    let x = hi as int;
    let y = lo as int;
    assert((x / 256) * 256 + x % 256 == x);
    assert((y / 256) * 256 + y % 256 == y);
    assert((x * 0x10000 + y) / 0x10000 == x);
    assert((x * 0x10000 + y) % 0x10000 == y);
}

/// Reading the data of an AAAA record where the bytes of its eight segments
/// lie reads the segments back.
proof fn lemma_take_segments_at(b: Seq<u8>, x: int, domain: Seq<char>, addr: Seq<u16>, ttl: u32)
    requires
        b.len() == 512,
        0 <= x,
        addr.len() == 8,
        x + 16 <= 512,
        holds_at(b, x, segments_bytes(addr)),
    ensures
        take_record_data(BufState { bytes: b, pos: x }, domain, 28, ttl, 16) == (
            BufState { bytes: b, pos: x + 16 },
            Ok::<RecordView, DnsError>(RecordView::AAAA { domain, addr, ttl }),
        ),
{
    lemma_segments_bytes_len(addr);
    assert forall|i: int| 0 <= i < 8 implies holds_at(b, x + 2 * i, u16_bytes(addr[i])) by {
        lemma_segments_held(b, x, addr, i);
    }
    assert forall|j: int| 0 <= j < 4 implies #[trigger] peek(
        BufState { bytes: b, pos: x + 4 * j },
        4,
    ) == u16_bytes(addr[2 * j]) + u16_bytes(addr[2 * j + 1]) by {
        lemma_holds_concat(b, x + 4 * j, u16_bytes(addr[2 * j]), u16_bytes(addr[2 * j + 1]));
        lemma_peek_held(b, x + 4 * j, u16_bytes(addr[2 * j]) + u16_bytes(addr[2 * j + 1]));
    }
    lemma_segment_pair(addr[0], addr[1]);
    lemma_segment_pair(addr[2], addr[3]);
    lemma_segment_pair(addr[4], addr[5]);
    lemma_segment_pair(addr[6], addr[7]);
    let s1 = BufState { bytes: b, pos: x };
    let s2 = BufState { bytes: b, pos: x + 4 };
    let s3 = BufState { bytes: b, pos: x + 8 };
    let s4 = BufState { bytes: b, pos: x + 12 };
    assert(peek(s1, 4) == u16_bytes(addr[0]) + u16_bytes(addr[1]));
    assert(peek(s2, 4) == u16_bytes(addr[2]) + u16_bytes(addr[3]));
    assert(peek(s3, 4) == u16_bytes(addr[4]) + u16_bytes(addr[5]));
    assert(peek(s4, 4) == u16_bytes(addr[6]) + u16_bytes(addr[7]));
    let v = segments_of(
        (addr[0] * 0x10000 + addr[1]) as u32,
        (addr[2] * 0x10000 + addr[3]) as u32,
        (addr[4] * 0x10000 + addr[5]) as u32,
        (addr[6] * 0x10000 + addr[7]) as u32,
    );
    assert(v =~= addr);
}

/// The data of a record without its length, as it is written.
pub open spec fn record_rdata(r: RecordView) -> Seq<u8> {
    record_data_bytes(r).skip(2)
}

/// Reading the data of a record that can be written and read back, where
/// its bytes lie, reads the record back.
proof fn lemma_take_data_at(b: Seq<u8>, x: int, r: RecordView)
    requires
        b.len() == 512,
        0 <= x,
        record_fits(r),
        x + record_rdata(r).len() <= 512,
        holds_at(b, x, record_rdata(r)),
    ensures
        ({
            let (domain, qtype, ttl) = record_head_parts(r);
            take_record_data(
                BufState { bytes: b, pos: x },
                name_text(encode_utf8(domain)),
                qtype,
                ttl,
                record_rdata(r).len() as u16,
            ) == (
                BufState { bytes: b, pos: x + record_rdata(r).len() },
                Ok::<RecordView, DnsError>(record_read_back(r)),
            )
        }),
{
    let data = record_rdata(r);
    match r {
        RecordView::A { addr, .. } => {
            assert(data =~= u32_bytes(addr));
            lemma_peek_held(b, x, u32_bytes(addr));
            lemma_u32_roundtrip(addr);
        },
        RecordView::NS { host, .. } => {
            let h = encode_utf8(host);
            lemma_plan_fits(h);
            assert(data =~= qname_plan(h).0);
            lemma_scan_plan(b, x, h, true);
            assert(Seq::<char>::empty() + name_text(h) =~= name_text(h));
        },
        RecordView::CNAME { host, .. } => {
            let h = encode_utf8(host);
            lemma_plan_fits(h);
            assert(data =~= qname_plan(h).0);
            lemma_scan_plan(b, x, h, true);
            assert(Seq::<char>::empty() + name_text(h) =~= name_text(h));
        },
        RecordView::MX { priority, host, .. } => {
            let h = encode_utf8(host);
            lemma_plan_fits(h);
            assert(data =~= u16_bytes(priority) + qname_plan(h).0);
            lemma_holds_concat(b, x, u16_bytes(priority), qname_plan(h).0);
            lemma_peek_held(b, x, u16_bytes(priority));
            lemma_u16_roundtrip(priority);
            lemma_scan_plan(b, x + 2, h, true);
            assert(Seq::<char>::empty() + name_text(h) =~= name_text(h));
        },
        RecordView::AAAA { domain, addr, ttl } => {
            lemma_segments_bytes_len(addr);
            assert(data =~= segments_bytes(addr));
            lemma_take_segments_at(b, x, name_text(encode_utf8(domain)), addr, ttl);
        },
        _ => {},
    }
}

/// Reading a record where the bytes of a record that can be written and
/// read back lie reads it back.
pub proof fn lemma_take_record_at(b: Seq<u8>, at: int, r: RecordView)
    requires
        b.len() == 512,
        0 <= at,
        record_fits(r),
        at + record_bytes(r).len() <= 512,
        holds_at(b, at, record_bytes(r)),
    ensures
        take_record(BufState { bytes: b, pos: at }) == (
            BufState { bytes: b, pos: at + record_bytes(r).len() },
            Ok::<RecordView, DnsError>(record_read_back(r)),
        ),
{
    reveal(take_record);
    lemma_record_bytes_len(r);
    let (domain, qtype, ttl) = record_head_parts(r);
    let d = encode_utf8(domain);
    lemma_plan_fits(d);
    let pd = qname_plan(d).0;
    let db = record_data_bytes(r);
    let dl = pd.len() as int;
    // the header
    lemma_holds_concat(b, at, head_bytes(d, qtype, ttl), db);
    lemma_holds_concat(b, at, pd + u16_bytes(qtype) + u16_bytes(1), u32_bytes(ttl));
    lemma_holds_concat(b, at, pd + u16_bytes(qtype), u16_bytes(1));
    lemma_holds_concat(b, at, pd, u16_bytes(qtype));
    lemma_scan_plan(b, at, d, true);
    assert(Seq::<char>::empty() + name_text(d) =~= name_text(d));
    lemma_peek_held(b, at + dl, u16_bytes(qtype));
    lemma_u16_roundtrip(qtype);
    lemma_peek_held(b, at + dl + 4, u32_bytes(ttl));
    lemma_u32_roundtrip(ttl);
    // the data length and data
    let data = record_rdata(r);
    assert(db =~= u16_bytes(data.len() as u16) + data) by {
        assert(u16_bytes(0).len() == 2);
    }
    let x = at + dl + 10;
    lemma_holds_concat(b, x - 2, u16_bytes(data.len() as u16), data);
    lemma_peek_held(b, x - 2, u16_bytes(data.len() as u16));
    lemma_u16_roundtrip(data.len() as u16);
    lemma_take_data_at(b, x, r);
}

/// What a record read gives back of a record write: once an A, NS, CNAME,
/// MX or AAAA record whose names have labels of 1 to 63 bytes (and, for
/// AAAA, eight segments) has been written where it fits, reading at the
/// same place gives back a record of the same kind, with its names read
/// back as their labels' text and every other field as written, and leaves
/// the cursor where the write left it.
pub proof fn lemma_record_roundtrip(st: BufState, r: RecordView)
    requires
        buf_wf(st),
        record_fits(r),
        st.pos + record_bytes(r).len() <= 512,
    ensures
        ({
            let w = put_record(st, r);
            &&& w.1 == Ok::<usize, DnsError>(record_bytes(r).len() as usize)
            &&& w.0.pos == st.pos + record_bytes(r).len()
            &&& take_record(BufState { bytes: w.0.bytes, pos: st.pos }) == (w.0, Ok::<
                RecordView,
                DnsError,
            >(record_read_back(r)))
        }),
{
    lemma_put_fitting_record(st, r);
    lemma_emit_holds(st, record_bytes(r));
    lemma_take_record_at(emit(st, record_bytes(r)).bytes, st.pos, r);
}

/// The bytes written for a record, each part at its RFC 1035 place: the
/// owner name; the type number, big-endian (1 for A, 2 for NS, 5 for
/// CNAME, 15 for MX, 28 for AAAA); class IN as the bytes 0 and 1; the time
/// to live, big-endian; the data length, big-endian, equal to the number of
/// data bytes that follow; then the data: the address for A, the host name
/// for NS and CNAME, the priority then the host name for MX, and the eight
/// segments for AAAA. (This is for records that fit in a message, whose
/// data length fits in its 16 bits.)
pub proof fn lemma_record_layout(r: RecordView)
    requires
        record_fits(r),
        record_bytes(r).len() <= 512,
    ensures
        ({
            let (domain, t, ttl) = record_head_parts(r);
            let name = qname_plan(encode_utf8(domain)).0;
            let n = name.len() as int;
            let b = record_bytes(r);
            &&& t == (match r {
                RecordView::A { .. } => 1u16,
                RecordView::NS { .. } => 2u16,
                RecordView::CNAME { .. } => 5u16,
                RecordView::MX { .. } => 15u16,
                RecordView::AAAA { .. } => 28u16,
                RecordView::UNKNOWN { qtype, .. } => qtype,
            })
            &&& b.len() >= n + 10
            &&& b.subrange(0, n) == name
            &&& b[n] == t / 256
            &&& b[n + 1] == t % 256
            &&& b[n + 2] == 0
            &&& b[n + 3] == 1
            &&& b.subrange(n + 4, n + 8) == u32_bytes(ttl)
            &&& b[n + 8] * 256 + b[n + 9] == b.len() - (n + 10)
            &&& b.subrange(n + 10, b.len() as int) == (match r {
                RecordView::A { addr, .. } => u32_bytes(addr),
                RecordView::NS { host, .. } => qname_plan(encode_utf8(host)).0,
                RecordView::CNAME { host, .. } => qname_plan(encode_utf8(host)).0,
                RecordView::MX { priority, host, .. } => u16_bytes(priority) + qname_plan(
                    encode_utf8(host),
                ).0,
                RecordView::AAAA { addr, .. } => segments_bytes(addr),
                RecordView::UNKNOWN { .. } => Seq::empty(),
            })
        }),
{
    lemma_record_bytes_len(r);
    let (domain, t, ttl) = record_head_parts(r);
    let d = encode_utf8(domain);
    lemma_plan_fits(d);
    let name = qname_plan(d).0;
    let n = name.len() as int;
    let b = record_bytes(r);
    let db = record_data_bytes(r);
    let data = record_rdata(r);
    assert(db =~= u16_bytes(data.len() as u16) + data) by {
        assert(u16_bytes(0).len() == 2);
    }
    assert(b =~= name + seq![(t / 256) as u8, (t % 256) as u8, 0u8, 1u8] + u32_bytes(ttl)
        + u16_bytes(data.len() as u16) + data);
    lemma_u16_roundtrip(data.len() as u16);
    assert(b.subrange(0, n) =~= name);
    assert(b.subrange(n + 4, n + 8) =~= u32_bytes(ttl));
    assert(b.subrange(n + 10, b.len() as int) =~= data);
    assert(b[n] == t / 256);
    assert(b[n + 1] == t % 256);
    assert(b[n + 8] * 256 + b[n + 9] == data.len());
    match r {
        RecordView::A { addr, .. } => {
            assert(data =~= u32_bytes(addr));
        },
        RecordView::NS { host, .. } => {
            assert(data =~= qname_plan(encode_utf8(host)).0);
        },
        RecordView::CNAME { host, .. } => {
            assert(data =~= qname_plan(encode_utf8(host)).0);
        },
        RecordView::MX { priority, host, .. } => {
            assert(data =~= u16_bytes(priority) + qname_plan(encode_utf8(host)).0);
        },
        RecordView::AAAA { addr, .. } => {
            assert(data =~= segments_bytes(addr));
        },
        _ => {},
    }
}

/// A record whose names are all lowercase ASCII.
pub open spec fn record_names_lowercase(r: RecordView) -> bool {
    &&& lowercase_ascii(record_head_parts(r).0)
    &&& match r {
        RecordView::NS { host, .. } => lowercase_ascii(host),
        RecordView::CNAME { host, .. } => lowercase_ascii(host),
        RecordView::MX { host, .. } => lowercase_ascii(host),
        _ => true,
    }
}

/// A record whose names are lowercase ASCII reads back as itself.
pub proof fn lemma_lowercase_record_read_back(r: RecordView)
    requires
        record_names_lowercase(r),
        !(r is UNKNOWN),
    ensures
        record_read_back(r) == r,
{
    lemma_lowercase_name_text(record_head_parts(r).0);
    match r {
        RecordView::NS { host, .. } => lemma_lowercase_name_text(host),
        RecordView::CNAME { host, .. } => lemma_lowercase_name_text(host),
        RecordView::MX { host, .. } => lemma_lowercase_name_text(host),
        _ => {},
    }
}

/// What a record read gives back of a record write, for a record whose
/// names are lowercase ASCII: once an A, NS, CNAME, MX or AAAA record that
/// can be written and read back has been written where it fits, reading at
/// the same place gives back the record itself and leaves the cursor where
/// the write left it.
pub proof fn lemma_lowercase_record_roundtrip(st: BufState, r: RecordView)
    requires
        buf_wf(st),
        record_fits(r),
        record_names_lowercase(r),
        st.pos + record_bytes(r).len() <= 512,
    ensures
        ({
            let w = put_record(st, r);
            &&& w.1 == Ok::<usize, DnsError>(record_bytes(r).len() as usize)
            &&& take_record(BufState { bytes: w.0.bytes, pos: st.pos }) == (w.0, Ok::<
                RecordView,
                DnsError,
            >(r))
        }),
{
    lemma_record_roundtrip(st, r);
    lemma_lowercase_record_read_back(r);
}

impl DnsRecord {
    /// Reads a resource record at the cursor of `buf`: owner name, type,
    /// class (ignored), time to live and data length, then the data as the
    /// type says. A record of a type that is not interpreted is skipped by
    /// its stated data length.
    /// Fails with the first error of the reads it makes, the cursor left
    /// where that read left it.
    pub fn read(buf: &mut BytePacketBuffer) -> (r: Result<DnsRecord>)
        ensures
            final(buf)@ == take_record(old(buf)@).0,
            final(buf).buf@ == old(buf).buf@,
            match r {
                Ok(rec) => take_record(old(buf)@).1 == Ok::<RecordView, DnsError>(rec@),
                Err(e) => take_record(old(buf)@).1 == Err::<RecordView, DnsError>(e),
            },
    {
        proof {
            reveal(take_record);
        }
        let mut domain = String::new();
        buf.read_qname(&mut domain)?;

        let qtype_num = buf.read_u16()?;
        let _ = buf.read_u16()?;
        let ttl = buf.read_u32()?;
        let data_len = buf.read_u16()?;

        let qtype = QueryType::from_num(qtype_num);

        match qtype {
            QueryType::UNKNOWN(_) => {
                let _ = buf.step(data_len as usize);
                Ok(DnsRecord::UNKNOWN { domain, qtype: qtype_num, data_len, ttl })
            },
            QueryType::A => {
                let raw_addr = buf.read_u32()?;
                Ok(DnsRecord::A { domain, addr: raw_addr, ttl })
            },
            QueryType::AAAA => {
                let raw_addr1 = buf.read_u32()?;
                let raw_addr2 = buf.read_u32()?;
                let raw_addr3 = buf.read_u32()?;
                let raw_addr4 = buf.read_u32()?;
                proof {
                    lemma_split_segments(raw_addr1);
                    lemma_split_segments(raw_addr2);
                    lemma_split_segments(raw_addr3);
                    lemma_split_segments(raw_addr4);
                }
                let addr: [u16; 8] = [
                    ((raw_addr1 >> 16) & 0xFFFF) as u16,
                    (raw_addr1 & 0xFFFF) as u16,
                    ((raw_addr2 >> 16) & 0xFFFF) as u16,
                    (raw_addr2 & 0xFFFF) as u16,
                    ((raw_addr3 >> 16) & 0xFFFF) as u16,
                    (raw_addr3 & 0xFFFF) as u16,
                    ((raw_addr4 >> 16) & 0xFFFF) as u16,
                    (raw_addr4 & 0xFFFF) as u16,
                ];
                assert(addr@ =~= segments_of(raw_addr1, raw_addr2, raw_addr3, raw_addr4));
                Ok(DnsRecord::AAAA { domain, addr, ttl })
            },
            QueryType::NS => {
                let mut ns = String::new();
                buf.read_qname(&mut ns)?;
                Ok(DnsRecord::NS { domain, host: ns, ttl })
            },
            QueryType::CNAME => {
                let mut cname = String::new();
                buf.read_qname(&mut cname)?;
                Ok(DnsRecord::CNAME { domain, host: cname, ttl })
            },
            QueryType::MX => {
                let priority = buf.read_u16()?;
                let mut mx = String::new();
                buf.read_qname(&mut mx)?;
                Ok(DnsRecord::MX { domain, priority, host: mx, ttl })
            },
        }
    }

    /// Writes this record at the cursor of `buf` and returns how many bytes
    /// it took: owner name, type, class 1, time to live, data length and
    /// data. A record of a type that is not interpreted is skipped and takes
    /// none. The data length of an NS, CNAME or MX record is filled in once
    /// the data is written. Fails with the first error of the writes it
    /// makes, the bytes before it written.
    pub fn write(&self, buf: &mut BytePacketBuffer) -> (r: Result<usize>)
        ensures
            (final(buf)@, r) == put_record(old(buf)@, self@),
    {
        let start_pos = buf.pos();

        match self {
            DnsRecord::UNKNOWN { .. } => {},
            DnsRecord::A { domain, addr, ttl } => {
                write_record_head(buf, domain, QueryType::A, *ttl)?;
                buf.write_u16(4)?;
                // the four octets of the address, most significant first
                buf.write_u32(*addr)?;
            },
            DnsRecord::NS { domain, host, ttl } => {
                write_record_head(buf, domain, QueryType::NS, *ttl)?;
                write_named_data(buf, None, host)?;
            },
            DnsRecord::CNAME { domain, host, ttl } => {
                write_record_head(buf, domain, QueryType::CNAME, *ttl)?;
                write_named_data(buf, None, host)?;
            },
            DnsRecord::MX { domain, priority, host, ttl } => {
                write_record_head(buf, domain, QueryType::MX, *ttl)?;
                write_named_data(buf, Some(*priority), host)?;
            },
            DnsRecord::AAAA { domain, addr, ttl } => {
                write_record_head(buf, domain, QueryType::AAAA, *ttl)?;
                buf.write_u16(16)?;
                write_segments(buf, addr)?;
            },
        }

        Ok(buf.pos() - start_pos)
    }
}

/// Writes the header of a record: owner name `domain`, the number of
/// `qtype`, class 1 and time to live `ttl`.
fn write_record_head(buf: &mut BytePacketBuffer, domain: &String, qtype: QueryType, ttl: u32) -> (r:
    Result<()>)
    ensures
        (final(buf)@, r) == record_head(old(buf)@, domain@, query_type_num(qtype), ttl),
        final(buf).pos >= old(buf).pos,
{
    proof {
        reveal(record_head);
    }
    buf.write_qname(domain.as_str())?;
    buf.write_u16(qtype.to_num())?;
    buf.write_u16(1)?;
    buf.write_u32(ttl)?;
    Ok(())
}

/// Writes record data made of a placeholder data length, the 16-bit
/// `priority` where there is one, and the name `host`, then sets the length
/// field to the number of data bytes after it.
fn write_named_data(buf: &mut BytePacketBuffer, priority: Option<u16>, host: &String) -> (r: Result<
    ()>)
    ensures
        (final(buf)@, r) == put_named_data(
            old(buf)@,
            match priority {
                Some(p) => u16_bytes(p),
                None => Seq::empty(),
            },
            host@,
        ),
        final(buf).pos >= old(buf).pos,
{
    proof {
        reveal(put_named_data);
    }
    let pos = buf.pos();
    buf.write_u16(0)?;
    match priority {
        Some(p) => {
            buf.write_u16(p)?;
        },
        None => {
            proof {
                lemma_emit_empty(buf@);
            }
        },
    }
    buf.write_qname(host.as_str())?;

    let size = buf.pos() - (pos + 2);
    buf.set_u16(pos, size as u16)?;
    Ok(())
}

/// Writes the eight segments of an IPv6 address, each as a big-endian
/// 16-bit value.
fn write_segments(buf: &mut BytePacketBuffer, addr: &[u16; 8]) -> (r: Result<()>)
    ensures
        (final(buf)@, r) == put_segments(old(buf)@, addr@),
        final(buf).pos >= old(buf).pos,
{
    let ghost st = buf@;
    let mut i: usize = 0;
    proof {
        reveal(put_segments);
        assert(addr@.take(0) =~= Seq::<u16>::empty());
    }
    while i < 8
        invariant
            i <= 8,
            st == old(buf)@,
            buf.pos >= st.pos,
            (buf@, Ok::<(), DnsError>(())) == put_segments(st, addr@.take(i as int)),
        decreases 8 - i,
    {
        proof {
            reveal(put_segments);
            assert(addr@.take(i + 1).drop_last() =~= addr@.take(i as int));
        }
        let w = buf.write_u16(addr[i]);
        if w.is_err() {
            proof {
                lemma_segments_stuck(st, addr@, i + 1);
            }
            return Err(DnsError::EndOfBuffer);
        }
        i += 1;
    }
    assert(addr@.take(8) =~= addr@);
    Ok(())
}

} // verus!
