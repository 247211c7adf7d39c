use vstd::prelude::*;

use crate::types::bytepacket_buffer::{BytePacketBuffer, Result};
use crate::types::error::DnsError;
use crate::types::result_code::{
    lemma_result_code_roundtrip, result_code_num, result_code_of, ResultCode,
};
use crate::types::wire::{
    buf_wf, emit, fits, holds_at, lemma_emit_empty, lemma_emit_holds, lemma_emit_prefix,
    lemma_u16_roundtrip, peek, take_u16, u16_bytes, BufState,
};

verus! {

/// The header section of a DNS message (RFC 1035, section 4.1.1).
#[derive(Clone, Copy, PartialEq, Eq, Debug, Structural)]
pub struct DnsHeader {
    pub id: u16,
    /// QR: the message is a response.
    pub query_or_response: bool,
    /// OPCODE, 4 bits.
    pub opcode: u8,
    /// AA: the answer is authoritative.
    pub authoritative_answer: bool,
    /// TC: the message was truncated.
    pub truncation: bool,
    /// RD: recursion is desired.
    pub recursion_desired: bool,
    /// RA: recursion is available.
    pub recursion_available: bool,
    /// Z: reserved.
    pub z: bool,
    /// CD: checking is disabled.
    pub checking_disabled: bool,
    /// AD: the data is authenticated.
    pub authenticated_data: bool,
    /// RCODE, 4 bits.
    pub response_code: ResultCode,
    /// QDCOUNT.
    pub question_count: u16,
    /// ANCOUNT.
    pub answer_count: u16,
    /// NSCOUNT.
    pub authority_count: u16,
    /// ARCOUNT.
    pub additional_count: u16,
}

/// The header that `DnsHeader::new` gives: all fields zero or false, and
/// response code `NOERR`.
pub open spec fn empty_header() -> DnsHeader {
    DnsHeader {
        id: 0,
        query_or_response: false,
        opcode: 0,
        authoritative_answer: false,
        truncation: false,
        recursion_desired: false,
        recursion_available: false,
        z: false,
        checking_disabled: false,
        authenticated_data: false,
        response_code: ResultCode::NOERR,
        question_count: 0,
        answer_count: 0,
        authority_count: 0,
        additional_count: 0,
    }
}

/// The header `h` with the flag fields taken from the 16-bit flags word
/// `flags`: in its high byte RD is bit 0, TC bit 1, AA bit 2, OPCODE bits 3
/// to 6 and QR bit 7; in its low byte RCODE is bits 0 to 3, CD bit 4, AD
/// bit 5, Z bit 6 and RA bit 7.
pub open spec fn with_flags(h: DnsHeader, flags: u16) -> DnsHeader {
    let msb = (flags >> 8u16) as u8;
    let lsb = (flags & 0xffu16) as u8;
    DnsHeader {
        recursion_desired: (msb & 1u8) != 0,
        truncation: (msb & 2u8) != 0,
        authoritative_answer: (msb & 4u8) != 0,
        opcode: (msb >> 3u8) & 0x0fu8,
        query_or_response: (msb & 0x80u8) != 0,
        response_code: result_code_of(lsb & 0x0fu8),
        checking_disabled: (lsb & 0x10u8) != 0,
        authenticated_data: (lsb & 0x20u8) != 0,
        z: (lsb & 0x40u8) != 0,
        recursion_available: (lsb & 0x80u8) != 0,
        ..h
    }
}

/// `1` for true, `0` for false.
pub open spec fn bit_of(b: bool) -> u8 {
    if b {
        1
    } else {
        0
    }
}

/// The high byte of the flags word of `h`.
pub open spec fn flags_high(h: DnsHeader) -> u8 {
    bit_of(h.recursion_desired) | (bit_of(h.truncation) << 1u8) | (bit_of(h.authoritative_answer)
        << 2u8) | (h.opcode << 3u8) | (bit_of(h.query_or_response) << 7u8)
}

/// The low byte of the flags word of `h`.
pub open spec fn flags_low(h: DnsHeader) -> u8 {
    result_code_num(h.response_code) | (bit_of(h.checking_disabled) << 4u8) | (bit_of(
        h.authenticated_data,
    ) << 5u8) | (bit_of(h.z) << 6u8) | (bit_of(h.recursion_available) << 7u8)
}

/// Reading a header at the cursor into `h`: six 16-bit values (id, flags
/// and the four counts), each stored as soon as it is read. Reading stops
/// at the first value that does not fit, with the fields before it stored.
#[verifier::opaque]
pub open spec fn take_header(h: DnsHeader, st: BufState) -> (DnsHeader, BufState, Result<()>) {
    let (s1, id) = take_u16(st);
    match id {
        None => (h, s1, Err(DnsError::EndOfBuffer)),
        Some(id) => {
            let h1 = DnsHeader { id, ..h };
            let (s2, flags) = take_u16(s1);
            match flags {
                None => (h1, s2, Err(DnsError::EndOfBuffer)),
                Some(flags) => take_counts(with_flags(h1, flags), s2),
            }
        },
    }
}

/// Reading the four counts of a header at the cursor into `h`, each stored
/// as soon as it is read.
pub open spec fn take_counts(h: DnsHeader, st: BufState) -> (DnsHeader, BufState, Result<()>) {
    let (s1, qd) = take_u16(st);
    let (s2, an) = take_u16(s1);
    let (s3, ns) = take_u16(s2);
    let (s4, ar) = take_u16(s3);
    if qd is None {
        (h, s1, Err(DnsError::EndOfBuffer))
    } else if an is None {
        (DnsHeader { question_count: qd->0, ..h }, s2, Err(DnsError::EndOfBuffer))
    } else if ns is None {
        (
            DnsHeader { question_count: qd->0, answer_count: an->0, ..h },
            s3,
            Err(DnsError::EndOfBuffer),
        )
    } else if ar is None {
        (
            DnsHeader { question_count: qd->0, answer_count: an->0, authority_count: ns->0, ..h },
            s4,
            Err(DnsError::EndOfBuffer),
        )
    } else {
        (
            DnsHeader {
                question_count: qd->0,
                answer_count: an->0,
                authority_count: ns->0,
                additional_count: ar->0,
                ..h
            },
            s4,
            Ok(()),
        )
    }
}

/// The twelve bytes of the header `h`: id, the two bytes of the flags word,
/// then the four counts, each big-endian.
pub open spec fn header_bytes(h: DnsHeader) -> Seq<u8> {
    u16_bytes(h.id) + seq![flags_high(h)] + seq![flags_low(h)] + u16_bytes(h.question_count)
        + u16_bytes(h.answer_count) + u16_bytes(h.authority_count) + u16_bytes(h.additional_count)
}

/// Bits set in the high flags byte read back as they were set.
proof fn lemma_high_bits(rd: u8, tc: u8, aa: u8, op: u8, qr: u8)
    by (bit_vector)
    requires
        rd <= 1,
        tc <= 1,
        aa <= 1,
        qr <= 1,
        op < 16,
    ensures
        ((rd | (tc << 1u8) | (aa << 2u8) | (op << 3u8) | (qr << 7u8)) & 1u8 != 0) == (rd == 1),
        ((rd | (tc << 1u8) | (aa << 2u8) | (op << 3u8) | (qr << 7u8)) & 2u8 != 0) == (tc == 1),
        ((rd | (tc << 1u8) | (aa << 2u8) | (op << 3u8) | (qr << 7u8)) & 4u8 != 0) == (aa == 1),
        (((rd | (tc << 1u8) | (aa << 2u8) | (op << 3u8) | (qr << 7u8)) >> 3u8) & 0x0fu8) == op,
        ((rd | (tc << 1u8) | (aa << 2u8) | (op << 3u8) | (qr << 7u8)) & 0x80u8 != 0) == (qr == 1),
{
}

/// Bits set in the low flags byte read back as they were set.
proof fn lemma_low_bits(rc: u8, cd: u8, ad: u8, z: u8, ra: u8)
    by (bit_vector)
    requires
        rc < 16,
        cd <= 1,
        ad <= 1,
        z <= 1,
        ra <= 1,
    ensures
        ((rc | (cd << 4u8) | (ad << 5u8) | (z << 6u8) | (ra << 7u8)) & 0x0fu8) == rc,
        ((rc | (cd << 4u8) | (ad << 5u8) | (z << 6u8) | (ra << 7u8)) & 0x10u8 != 0) == (cd == 1),
        ((rc | (cd << 4u8) | (ad << 5u8) | (z << 6u8) | (ra << 7u8)) & 0x20u8 != 0) == (ad == 1),
        ((rc | (cd << 4u8) | (ad << 5u8) | (z << 6u8) | (ra << 7u8)) & 0x40u8 != 0) == (z == 1),
        ((rc | (cd << 4u8) | (ad << 5u8) | (z << 6u8) | (ra << 7u8)) & 0x80u8 != 0) == (ra == 1),
{
}

/// A flags word put together from two bytes splits into those bytes.
proof fn lemma_flags_word(hi: u8, lo: u8)
    by (bit_vector)
    ensures
        ((((hi as u16) * 256 + (lo as u16)) as u16 >> 8u16) as u8) == hi,
        ((((hi as u16) * 256 + (lo as u16)) as u16 & 0xffu16) as u8) == lo,
{
}

/// Reading a header, into any header, where the bytes of the header `h`
/// lie gives `h` back, provided its OPCODE fits in four bits.
pub proof fn lemma_take_header_at(b: Seq<u8>, at: int, h: DnsHeader, into: DnsHeader)
    requires
        b.len() == 512,
        0 <= at,
        at + 12 <= 512,
        h.opcode < 16,
        holds_at(b, at, header_bytes(h)),
    ensures
        take_header(into, BufState { bytes: b, pos: at }) == (
            h,
            BufState { bytes: b, pos: at + 12 },
            Ok::<(), DnsError>(()),
        ),
{
    reveal(take_header);
    let data = header_bytes(h);
    let r = BufState { bytes: b, pos: at };
    let hi = flags_high(h);
    let lo = flags_low(h);
    let (i0, i1) = (u16_bytes(h.id)[0], u16_bytes(h.id)[1]);
    let (q0, q1) = (u16_bytes(h.question_count)[0], u16_bytes(h.question_count)[1]);
    let (a0, a1) = (u16_bytes(h.answer_count)[0], u16_bytes(h.answer_count)[1]);
    let (n0, n1) = (u16_bytes(h.authority_count)[0], u16_bytes(h.authority_count)[1]);
    let (r0, r1) = (u16_bytes(h.additional_count)[0], u16_bytes(h.additional_count)[1]);
    assert(data =~= seq![i0, i1, hi, lo, q0, q1, a0, a1, n0, n1, r0, r1]);
    assert forall|i: int| 0 <= i < 12 implies b[at + i] == data[i] by {
        assert(b[at + i] == data[i]);
    }
    lemma_high_bits(
        bit_of(h.recursion_desired),
        bit_of(h.truncation),
        bit_of(h.authoritative_answer),
        h.opcode,
        bit_of(h.query_or_response),
    );
    lemma_result_code_roundtrip(h.response_code);
    lemma_low_bits(
        result_code_num(h.response_code),
        bit_of(h.checking_disabled),
        bit_of(h.authenticated_data),
        bit_of(h.z),
        bit_of(h.recursion_available),
    );
    lemma_flags_word(hi, lo);
    lemma_u16_roundtrip(h.id);
    lemma_u16_roundtrip(h.question_count);
    lemma_u16_roundtrip(h.answer_count);
    lemma_u16_roundtrip(h.authority_count);
    lemma_u16_roundtrip(h.additional_count);
    let (s1, id) = take_u16(r);
    assert(peek(r, 2) =~= u16_bytes(h.id));
    assert(id == Some(h.id));
    let (s2, flags) = take_u16(s1);
    assert(peek(s1, 2) =~= seq![hi, lo]);
    assert(flags == Some(((hi as u16) * 256 + (lo as u16)) as u16));
    let h2 = with_flags(DnsHeader { id: h.id, ..into }, flags->0);
    assert(h2 == DnsHeader {
        question_count: into.question_count,
        answer_count: into.answer_count,
        authority_count: into.authority_count,
        additional_count: into.additional_count,
        ..h
    });
    let (s3, qd) = take_u16(s2);
    assert(peek(s2, 2) =~= u16_bytes(h.question_count));
    let (s4, an) = take_u16(s3);
    assert(peek(s3, 2) =~= u16_bytes(h.answer_count));
    let (s5, ns) = take_u16(s4);
    assert(peek(s4, 2) =~= u16_bytes(h.authority_count));
    let (s6, ar) = take_u16(s5);
    assert(peek(s5, 2) =~= u16_bytes(h.additional_count));
}

/// What a header read gives back of a header write: reading, into any
/// header, at the place where the header `h` was written gives `h` back and
/// moves the cursor past its twelve bytes, provided its OPCODE fits in four
/// bits (a wider one loses its high bits on the wire).
pub proof fn lemma_header_roundtrip(st: BufState, h: DnsHeader, into: DnsHeader)
    requires
        buf_wf(st),
        st.pos + 12 <= 512,
        h.opcode < 16,
    ensures
        ({
            let w = emit(st, header_bytes(h));
            take_header(into, BufState { bytes: w.bytes, pos: st.pos }) == (h, w, Ok::<(), DnsError>(()))
        }),
{
    assert(header_bytes(h).len() == 12);
    lemma_emit_holds(st, header_bytes(h));
    lemma_take_header_at(emit(st, header_bytes(h)).bytes, st.pos, h, into);
}

/// Where each flag of a 16-bit flags word lies, as the two bytes it is
/// made of see it.
proof fn lemma_flag_bit_qr(flags: u16)
    by (bit_vector)
    ensures
        (((flags >> 8u16) as u8) & 0x80u8 != 0) == (flags / 0x8000u16 == 1u16),
{
}

proof fn lemma_flag_bit_opcode(flags: u16)
    by (bit_vector)
    ensures
        ((((flags >> 8u16) as u8) >> 3u8) & 0x0fu8) == ((flags / 0x800u16) % 16u16) as u8,
{
}

proof fn lemma_flag_bit_aa(flags: u16)
    by (bit_vector)
    ensures
        (((flags >> 8u16) as u8) & 4u8 != 0) == ((flags / 0x400u16) % 2u16 == 1u16),
{
}

proof fn lemma_flag_bit_tc(flags: u16)
    by (bit_vector)
    ensures
        (((flags >> 8u16) as u8) & 2u8 != 0) == ((flags / 0x200u16) % 2u16 == 1u16),
{
}

proof fn lemma_flag_bit_rd(flags: u16)
    by (bit_vector)
    ensures
        (((flags >> 8u16) as u8) & 1u8 != 0) == ((flags / 0x100u16) % 2u16 == 1u16),
{
}

proof fn lemma_flag_bit_ra(flags: u16)
    by (bit_vector)
    ensures
        (((flags & 0xffu16) as u8) & 0x80u8 != 0) == ((flags / 0x80u16) % 2u16 == 1u16),
{
}

proof fn lemma_flag_bit_z(flags: u16)
    by (bit_vector)
    ensures
        (((flags & 0xffu16) as u8) & 0x40u8 != 0) == ((flags / 0x40u16) % 2u16 == 1u16),
{
}

proof fn lemma_flag_bit_ad(flags: u16)
    by (bit_vector)
    ensures
        (((flags & 0xffu16) as u8) & 0x20u8 != 0) == ((flags / 0x20u16) % 2u16 == 1u16),
{
}

proof fn lemma_flag_bit_cd(flags: u16)
    by (bit_vector)
    ensures
        (((flags & 0xffu16) as u8) & 0x10u8 != 0) == ((flags / 0x10u16) % 2u16 == 1u16),
{
}

proof fn lemma_flag_bit_rcode(flags: u16)
    by (bit_vector)
    ensures
        (((flags & 0xffu16) as u8) & 0x0fu8) == (flags % 16u16) as u8,
{
}


/// The flag fields of a header are read from their places in the 16-bit
/// flags word (RFC 1035, section 4.1.1, bit 15 the most significant): QR is
/// bit 15, OPCODE bits 11 to 14, AA bit 10, TC bit 9, RD bit 8, RA bit 7,
/// Z bit 6, AD bit 5, CD bit 4 and RCODE bits 0 to 3. The id and the counts
/// are left as they were.
pub proof fn lemma_flag_positions(h: DnsHeader, flags: u16)
    ensures
        with_flags(h, flags).query_or_response == (flags >= 0x8000),
        with_flags(h, flags).opcode == (flags / 0x800) % 16,
        with_flags(h, flags).authoritative_answer == ((flags / 0x400) % 2 == 1),
        with_flags(h, flags).truncation == ((flags / 0x200) % 2 == 1),
        with_flags(h, flags).recursion_desired == ((flags / 0x100) % 2 == 1),
        with_flags(h, flags).recursion_available == ((flags / 0x80) % 2 == 1),
        with_flags(h, flags).z == ((flags / 0x40) % 2 == 1),
        with_flags(h, flags).authenticated_data == ((flags / 0x20) % 2 == 1),
        with_flags(h, flags).checking_disabled == ((flags / 0x10) % 2 == 1),
        with_flags(h, flags).response_code == result_code_of((flags % 16) as u8),
        with_flags(h, flags).id == h.id,
        with_flags(h, flags).question_count == h.question_count,
        with_flags(h, flags).answer_count == h.answer_count,
        with_flags(h, flags).authority_count == h.authority_count,
        with_flags(h, flags).additional_count == h.additional_count,
{
    lemma_flag_bit_qr(flags);
    lemma_flag_bit_opcode(flags);
    lemma_flag_bit_aa(flags);
    lemma_flag_bit_tc(flags);
    lemma_flag_bit_rd(flags);
    lemma_flag_bit_ra(flags);
    lemma_flag_bit_z(flags);
    lemma_flag_bit_ad(flags);
    lemma_flag_bit_cd(flags);
    lemma_flag_bit_rcode(flags);
}

/// A flags byte put together from bits at given places, as a number.
proof fn lemma_flag_byte_sum(b0: u8, b1: u8, b2: u8, mid: u8, b7: u8)
    by (bit_vector)
    requires
        b0 <= 1,
        b1 <= 1,
        b2 <= 1,
        mid < 16,
        b7 <= 1,
    ensures
        ((b0 | (b1 << 1u8) | (b2 << 2u8) | (mid << 3u8) | (b7 << 7u8)) as u16) == (b0 as u16) + 2u16
            * (b1 as u16) + 4u16 * (b2 as u16) + 8u16 * (mid as u16) + 128u16 * (b7 as u16),
        ((mid | (b0 << 4u8) | (b1 << 5u8) | (b2 << 6u8) | (b7 << 7u8)) as u16) == (mid as u16)
            + 16u16 * (b0 as u16) + 32u16 * (b1 as u16) + 64u16 * (b2 as u16) + 128u16 * (b7 as u16),
{
}

/// The twelve bytes written for a header, each at its RFC 1035 place: the
/// id, big-endian; then the high flags byte with QR as 0x80, OPCODE times 8,
/// AA as 0x04, TC as 0x02 and RD as 0x01; then the low flags byte with RA
/// as 0x80, Z as 0x40, AD as 0x20, CD as 0x10 and the RCODE number; then
/// the question, answer, authority and additional counts, each big-endian.
pub proof fn lemma_header_layout(h: DnsHeader)
    requires
        h.opcode < 16,
    ensures
        header_bytes(h).len() == 12,
        header_bytes(h)[0] == h.id / 256,
        header_bytes(h)[1] == h.id % 256,
        header_bytes(h)[2] == (if h.query_or_response { 0x80int } else { 0 }) + 8 * h.opcode + (
        if h.authoritative_answer {
            4int
        } else {
            0
        }) + (if h.truncation {
            2int
        } else {
            0
        }) + (if h.recursion_desired {
            1int
        } else {
            0
        }),
        header_bytes(h)[3] == (if h.recursion_available { 0x80int } else { 0 }) + (if h.z {
            0x40int
        } else {
            0
        }) + (if h.authenticated_data {
            0x20int
        } else {
            0
        }) + (if h.checking_disabled {
            0x10int
        } else {
            0
        }) + result_code_num(h.response_code),
        header_bytes(h)[4] == h.question_count / 256,
        header_bytes(h)[5] == h.question_count % 256,
        header_bytes(h)[6] == h.answer_count / 256,
        header_bytes(h)[7] == h.answer_count % 256,
        header_bytes(h)[8] == h.authority_count / 256,
        header_bytes(h)[9] == h.authority_count % 256,
        header_bytes(h)[10] == h.additional_count / 256,
        header_bytes(h)[11] == h.additional_count % 256,
{
    lemma_flag_byte_sum(
        bit_of(h.recursion_desired),
        bit_of(h.truncation),
        bit_of(h.authoritative_answer),
        h.opcode,
        bit_of(h.query_or_response),
    );
    lemma_result_code_roundtrip(h.response_code);
    lemma_flag_byte_sum(
        bit_of(h.checking_disabled),
        bit_of(h.authenticated_data),
        bit_of(h.z),
        result_code_num(h.response_code),
        bit_of(h.recursion_available),
    );
}

/// Reading a header where twelve bytes lie inside the buffer takes each
/// field from its RFC 1035 place among them: the id from the first two
/// bytes, big-endian; QR, OPCODE, AA, TC and RD from the third byte (0x80,
/// bits 3 to 6, 0x04, 0x02, 0x01); RA, Z, AD, CD and RCODE from the fourth
/// (0x80, 0x40, 0x20, 0x10, bits 0 to 3); then the four counts, two bytes
/// each, big-endian. The cursor moves past the twelve bytes.
pub proof fn lemma_read_header_layout(into: DnsHeader, st: BufState)
    requires
        buf_wf(st),
        st.pos + 12 <= 512,
    ensures
        ({
            let (h, s, r) = take_header(into, st);
            let b = st.bytes;
            let p = st.pos;
            let hi = b[p + 2] as int;
            let lo = b[p + 3] as int;
            &&& r == Ok::<(), DnsError>(())
            &&& s == BufState { bytes: b, pos: p + 12 }
            &&& h.id == b[p] * 256 + b[p + 1]
            &&& h.query_or_response == (hi >= 0x80)
            &&& h.opcode == (hi / 8) % 16
            &&& h.authoritative_answer == ((hi / 4) % 2 == 1)
            &&& h.truncation == ((hi / 2) % 2 == 1)
            &&& h.recursion_desired == (hi % 2 == 1)
            &&& h.recursion_available == (lo >= 0x80)
            &&& h.z == ((lo / 0x40) % 2 == 1)
            &&& h.authenticated_data == ((lo / 0x20) % 2 == 1)
            &&& h.checking_disabled == ((lo / 0x10) % 2 == 1)
            &&& h.response_code == result_code_of((lo % 16) as u8)
            &&& h.question_count == b[p + 4] * 256 + b[p + 5]
            &&& h.answer_count == b[p + 6] * 256 + b[p + 7]
            &&& h.authority_count == b[p + 8] * 256 + b[p + 9]
            &&& h.additional_count == b[p + 10] * 256 + b[p + 11]
        }),
{
    reveal(take_header);
    let b = st.bytes;
    let p = st.pos;
    let hi = b[p + 2] as int;
    let lo = b[p + 3] as int;
    let (s1, id) = take_u16(st);
    let (s2, flags) = take_u16(s1);
    let f = flags->0;
    assert(f == hi * 256 + lo);
    lemma_flag_positions(DnsHeader { id: id->0, ..into }, f);
    assert(f >= 0x8000 <==> hi >= 0x80);
    assert((f / 0x800) % 16 == (hi / 8) % 16);
    assert((f / 0x400) % 2 == (hi / 4) % 2);
    assert((f / 0x200) % 2 == (hi / 2) % 2);
    assert((f / 0x100) % 2 == hi % 2);
    assert((f / 0x80) % 2 == 1 <==> lo >= 0x80);
    assert((f / 0x40) % 2 == (lo / 0x40) % 2);
    assert((f / 0x20) % 2 == (lo / 0x20) % 2);
    assert((f / 0x10) % 2 == (lo / 0x10) % 2);
    assert(f % 16 == lo % 16);
}

impl DnsHeader {
    /// A header with all fields zero or false and response code `NOERR`.
    pub fn new() -> (h: DnsHeader)
        ensures
            h == empty_header(),
    {
        DnsHeader {
            id: 0,
            query_or_response: false,
            opcode: 0,
            authoritative_answer: false,
            truncation: false,
            recursion_desired: false,
            recursion_available: false,
            z: false,  // default 0
            checking_disabled: false,
            authenticated_data: false,
            response_code: ResultCode::NOERR,
            question_count: 0,
            answer_count: 0,
            authority_count: 0,
            additional_count: 0,
        }
    }

    /// Reads a header at the cursor of `buf` into this one: the id, the
    /// flags word and the four counts, each stored as soon as it is read.
    /// Fails with `EndOfBuffer` at the first value that does not fit, the
    /// fields read before it stored.
    pub fn read(&mut self, buf: &mut BytePacketBuffer) -> (r: Result<()>)
        ensures
            (*final(self), final(buf)@, r) == take_header(*old(self), old(buf)@),
            final(buf).buf@ == old(buf).buf@,
    {
        proof {
            reveal(take_header);
        }
        self.id = buf.read_u16()?;

        let flags = buf.read_u16()?;
        self.set_flags(flags);

        self.read_counts(buf)
    }

    /// Reads the four counts at the cursor of `buf`, each stored as soon as
    /// it is read.
    fn read_counts(&mut self, buf: &mut BytePacketBuffer) -> (r: Result<()>)
        ensures
            (*final(self), final(buf)@, r) == take_counts(*old(self), old(buf)@),
            final(buf).buf@ == old(buf).buf@,
    {
        self.question_count = buf.read_u16()?;
        self.answer_count = buf.read_u16()?;
        self.authority_count = buf.read_u16()?;
        self.additional_count = buf.read_u16()?;

        Ok(())
    }

    /// Writes this header at the cursor of `buf`: the id, the flags word in
    /// the layout that `read` takes apart, and the four counts. Fails with
    /// `EndOfBuffer` at the first byte that does not fit, the bytes before
    /// it written.
    pub fn write(&self, buf: &mut BytePacketBuffer) -> (r: Result<()>)
        ensures
            final(buf)@ == emit(old(buf)@, header_bytes(*self)),
            fits(old(buf)@.pos, 12) ==> r == Ok::<(), DnsError>(()),
            !fits(old(buf)@.pos, 12) ==> r == Err::<(), DnsError>(DnsError::EndOfBuffer),
    {
        let ghost st = buf@;
        let ghost all = header_bytes(*self);
        let ghost p1 = u16_bytes(self.id);
        let ghost p2 = p1 + seq![flags_high(*self)];
        let ghost p3 = p2 + seq![flags_low(*self)];
        let ghost p4 = p3 + u16_bytes(self.question_count);
        let ghost p5 = p4 + u16_bytes(self.answer_count);
        let ghost p6 = p5 + u16_bytes(self.authority_count);
        proof {
            assert(all.len() == 12);
            lemma_emit_empty(st);
            lemma_emit_prefix(st, Seq::empty(), p1, all.skip(2));
            assert(Seq::<u8>::empty() + p1 =~= p1);
            assert(p1 + all.skip(2) =~= all);
        }
        buf.write_u16(self.id)?;

        let high = self.flags_high();
        proof {
            lemma_emit_prefix(st, p1, seq![high], all.skip(3));
            assert(p1 + seq![high] + all.skip(3) =~= all);
        }
        buf.write_u8(high)?;

        let low = self.flags_low();
        proof {
            lemma_emit_prefix(st, p2, seq![low], all.skip(4));
            assert(p2 + seq![low] + all.skip(4) =~= all);
        }
        buf.write_u8(low)?;

        proof {
            lemma_emit_prefix(st, p3, u16_bytes(self.question_count), all.skip(6));
            assert(p3 + u16_bytes(self.question_count) + all.skip(6) =~= all);
        }
        buf.write_u16(self.question_count)?;
        proof {
            lemma_emit_prefix(st, p4, u16_bytes(self.answer_count), all.skip(8));
            assert(p4 + u16_bytes(self.answer_count) + all.skip(8) =~= all);
        }
        buf.write_u16(self.answer_count)?;
        proof {
            lemma_emit_prefix(st, p5, u16_bytes(self.authority_count), all.skip(10));
            assert(p5 + u16_bytes(self.authority_count) + all.skip(10) =~= all);
        }
        buf.write_u16(self.authority_count)?;
        proof {
            lemma_emit_prefix(st, p6, u16_bytes(self.additional_count), Seq::empty());
            assert(p6 + u16_bytes(self.additional_count) + Seq::<u8>::empty() =~= all);
            assert(p6 + u16_bytes(self.additional_count) =~= all);
        }
        buf.write_u16(self.additional_count)?;

        Ok(())
    }
}

impl DnsHeader {
    /// Takes the flag fields from the 16-bit flags word `flags`.
    fn set_flags(&mut self, flags: u16)
        ensures
            *final(self) == with_flags(*old(self), flags),
    {
        let msb = (flags >> 8) as u8;
        let lsb = (flags & 0xFF) as u8;
        proof {
            assert((1u8 << 0u8) == 1u8 && (1u8 << 1u8) == 2u8 && (1u8 << 2u8) == 4u8 && (1u8 << 4u8)
                == 0x10u8 && (1u8 << 5u8) == 0x20u8 && (1u8 << 6u8) == 0x40u8 && (1u8 << 7u8)
                == 0x80u8) by (bit_vector);
        }

        // the high byte, from its lowest bit
        self.recursion_desired = (msb & (1 << 0)) != 0;
        self.truncation = (msb & (1 << 1)) > 0;
        self.authoritative_answer = (msb & (1 << 2)) > 0;
        self.opcode = (msb >> 3) & 0x0F;
        self.query_or_response = (msb & (1 << 7)) > 0;

        // the low byte
        self.response_code = ResultCode::from_num(lsb & 0x0F);
        self.checking_disabled = (lsb & (1 << 4)) > 0;
        self.authenticated_data = (lsb & (1 << 5)) > 0;
        self.z = (lsb & (1 << 6)) > 0;
        self.recursion_available = (lsb & (1 << 7)) > 0;
    }

    /// The high byte of the flags word: RD, TC, AA, OPCODE and QR from the
    /// lowest bit up.
    fn flags_high(&self) -> (r: u8)
        ensures
            r == flags_high(*self),
    {
        bit(self.recursion_desired) | (bit(self.truncation) << 1) | (bit(self.authoritative_answer)
            << 2) | (self.opcode << 3) | (bit(self.query_or_response) << 7)
    }

    /// The low byte of the flags word: RCODE, CD, AD, Z and RA from the
    /// lowest bit up.
    fn flags_low(&self) -> (r: u8)
        ensures
            r == flags_low(*self),
    {
        self.response_code.to_num() | (bit(self.checking_disabled) << 4) | (bit(
            self.authenticated_data,
        ) << 5) | (bit(self.z) << 6) | (bit(self.recursion_available) << 7)
    }
}

/// `1` for true, `0` for false.
fn bit(b: bool) -> (r: u8)
    ensures
        r == bit_of(b),
{
    if b {
        1
    } else {
        0
    }
}

impl Default for DnsHeader {
    fn default() -> (h: Self)
        ensures
            h == empty_header(),
    {
        Self::new()
    }
}

} // verus!
