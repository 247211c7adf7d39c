use vstd::prelude::*;

use crate::protocol::header::{
    empty_header, header_bytes, lemma_take_header_at, take_header, DnsHeader,
};
use crate::protocol::question::{
    lemma_put_question, lemma_take_question_at, question_bytes, question_fits, question_read_back,
    take_question, then_question, DnsQuestion, QuestionView,
};
use crate::protocol::record::{
    lemma_lowercase_record_read_back, lemma_put_fitting_record, record_names_lowercase, lemma_record_bytes_len, lemma_take_record_at, put_record,
    record_bytes, record_fits, record_read_back, take_record, DnsRecord, RecordView,
};
use crate::types::bytepacket_buffer::{BytePacketBuffer, Result};
use crate::types::error::DnsError;
use crate::types::query_type::{is_canonical_query_type, lemma_query_type_value_roundtrip, QueryType};
use crate::types::text::lowercase_ascii;
use crate::types::wire::{
    buf_wf, emit, fits, holds_at, lemma_emit_empty, lemma_emit_holds, lemma_emit_then,
    lemma_holds_concat, lemma_lowercase_name_text, BufState,
};

verus! {

/// A DNS message: its header and its four sections.
#[derive(Clone, Debug)]
pub struct DnsPacket {
    pub header: DnsHeader,
    pub questions: Vec<DnsQuestion>,
    pub answers: Vec<DnsRecord>,
    pub authorities: Vec<DnsRecord>,
    pub resources: Vec<DnsRecord>,
}

/// A DNS message with its questions and records as views.
pub struct PacketView {
    pub header: DnsHeader,
    pub questions: Seq<QuestionView>,
    pub answers: Seq<RecordView>,
    pub authorities: Seq<RecordView>,
    pub resources: Seq<RecordView>,
}

/// The views of the questions `qs`.
pub open spec fn question_views(qs: Seq<DnsQuestion>) -> Seq<QuestionView> {
    qs.map_values(|q: DnsQuestion| q@)
}

/// The views of the records `rs`.
pub open spec fn record_views(rs: Seq<DnsRecord>) -> Seq<RecordView> {
    rs.map_values(|r: DnsRecord| r@)
}

impl View for DnsPacket {
    type V = PacketView;

    open spec fn view(&self) -> PacketView {
        PacketView {
            header: self.header,
            questions: question_views(self.questions@),
            answers: record_views(self.answers@),
            authorities: record_views(self.authorities@),
            resources: record_views(self.resources@),
        }
    }
}

/// The packet that `DnsPacket::new` gives: the empty header and no
/// questions or records.
pub open spec fn empty_packet() -> PacketView {
    PacketView {
        header: empty_header(),
        questions: Seq::empty(),
        answers: Seq::empty(),
        authorities: Seq::empty(),
        resources: Seq::empty(),
    }
}

/// The question that reading starts from: an empty name and type 0.
pub open spec fn blank_question() -> QuestionView {
    QuestionView { name: Seq::empty(), qtype: QueryType::UNKNOWN(0) }
}

/// Reading `n` questions one after the other at the cursor.
pub open spec fn take_questions(st: BufState, n: nat) -> (BufState, Result<Seq<QuestionView>>)
    decreases n,
{
    if n == 0 {
        (st, Ok(Seq::empty()))
    } else {
        let (s1, r) = take_questions(st, (n - 1) as nat);
        match r {
            Err(e) => (s1, Err(e)),
            Ok(qs) => {
                let (q, s2, r2) = take_question(blank_question(), s1);
                match r2 {
                    Err(e) => (s2, Err(e)),
                    Ok(_) => (s2, Ok(qs.push(q))),
                }
            },
        }
    }
}

/// Reading `n` resource records one after the other at the cursor.
pub open spec fn take_records(st: BufState, n: nat) -> (BufState, Result<Seq<RecordView>>)
    decreases n,
{
    if n == 0 {
        (st, Ok(Seq::empty()))
    } else {
        let (s1, r) = take_records(st, (n - 1) as nat);
        match r {
            Err(e) => (s1, Err(e)),
            Ok(rs) => {
                let (s2, r2) = take_record(s1);
                match r2 {
                    Err(e) => (s2, Err(e)),
                    Ok(rec) => (s2, Ok(rs.push(rec))),
                }
            },
        }
    }
}

/// Reading a whole message at the cursor: the header, then as many
/// questions, answers, authority records and additional records as its
/// counts say.
pub open spec fn take_packet(st: BufState) -> (BufState, Result<PacketView>) {
    let (h, s1, r1) = take_header(empty_header(), st);
    match r1 {
        Err(e) => (s1, Err(e)),
        Ok(_) => {
            let (s2, qs) = take_questions(s1, h.question_count as nat);
            match qs {
                Err(e) => (s2, Err(e)),
                Ok(qs) => {
                    let (s3, an) = take_records(s2, h.answer_count as nat);
                    match an {
                        Err(e) => (s3, Err(e)),
                        Ok(an) => {
                            let (s4, ns) = take_records(s3, h.authority_count as nat);
                            match ns {
                                Err(e) => (s4, Err(e)),
                                Ok(ns) => {
                                    let (s5, ar) = take_records(s4, h.additional_count as nat);
                                    match ar {
                                        Err(e) => (s5, Err(e)),
                                        Ok(ar) => (
                                            s5,
                                            Ok(
                                                PacketView {
                                                    header: h,
                                                    questions: qs,
                                                    answers: an,
                                                    authorities: ns,
                                                    resources: ar,
                                                },
                                            ),
                                        ),
                                    }
                                },
                            }
                        },
                    }
                },
            }
        },
    }
}

/// Writing the questions `qs` one after the other at the cursor.
#[verifier::opaque]
pub open spec fn put_questions(st: BufState, qs: Seq<QuestionView>) -> (BufState, Result<()>)
    decreases qs.len(),
{
    if qs.len() == 0 {
        (st, Ok(()))
    } else {
        then_question(put_questions(st, qs.drop_last()), qs.last())
    }
}

/// After a write that may have failed, writing the record `rec`.
pub open spec fn then_record(prev: (BufState, Result<()>), rec: RecordView) -> (BufState, Result<()>) {
    match prev.1 {
        Err(e) => prev,
        Ok(_) => {
            let (s, r) = put_record(prev.0, rec);
            (
                s,
                match r {
                    Ok(_) => Ok(()),
                    Err(e) => Err(e),
                },
            )
        },
    }
}

/// Writing the records `rs` one after the other at the cursor.
#[verifier::opaque]
pub open spec fn put_records(st: BufState, rs: Seq<RecordView>) -> (BufState, Result<()>)
    decreases rs.len(),
{
    if rs.len() == 0 {
        (st, Ok(()))
    } else {
        then_record(put_records(st, rs.drop_last()), rs.last())
    }
}

/// After a write that may have failed, writing the questions `qs`.
pub open spec fn then_questions(prev: (BufState, Result<()>), qs: Seq<QuestionView>) -> (
    BufState,
    Result<()>,
) {
    match prev.1 {
        Err(e) => prev,
        Ok(_) => put_questions(prev.0, qs),
    }
}

/// After a write that may have failed, writing the records `rs`.
pub open spec fn then_records(prev: (BufState, Result<()>), rs: Seq<RecordView>) -> (
    BufState,
    Result<()>,
) {
    match prev.1 {
        Err(e) => prev,
        Ok(_) => put_records(prev.0, rs),
    }
}

/// The header of `p` with its four counts set to the number of questions
/// and records it holds, each taken modulo 65536.
pub open spec fn counted_header(p: PacketView) -> DnsHeader {
    DnsHeader {
        question_count: p.questions.len() as u16,
        answer_count: p.answers.len() as u16,
        authority_count: p.authorities.len() as u16,
        additional_count: p.resources.len() as u16,
        ..p.header
    }
}

/// `p` with its header counts set as `counted_header` says.
pub open spec fn counted(p: PacketView) -> PacketView {
    PacketView { header: counted_header(p), ..p }
}

/// Writing the message `p` at the cursor: its header, then its questions,
/// answers, authority records and additional records.
pub open spec fn put_packet(st: BufState, p: PacketView) -> (BufState, Result<()>) {
    let h = (
        emit(st, header_bytes(p.header)),
        if fits(st.pos, 12) {
            Ok(())
        } else {
            Err(DnsError::EndOfBuffer)
        },
    );
    then_records(
        then_records(then_records(then_questions(h, p.questions), p.answers), p.authorities),
        p.resources,
    )
}

/// Once reading questions has failed, reading more fails the same way.
proof fn lemma_take_questions_stuck(st: BufState, k: nat, n: nat)
    requires
        k <= n,
        take_questions(st, k).1 is Err,
    ensures
        take_questions(st, n) == take_questions(st, k),
    decreases n - k,
{
    if k < n {
        lemma_take_questions_stuck(st, k, (n - 1) as nat);
    }
}

/// Once reading records has failed, reading more fails the same way.
proof fn lemma_take_records_stuck(st: BufState, k: nat, n: nat)
    requires
        k <= n,
        take_records(st, k).1 is Err,
    ensures
        take_records(st, n) == take_records(st, k),
    decreases n - k,
{
    if k < n {
        lemma_take_records_stuck(st, k, (n - 1) as nat);
    }
}

/// Once writing questions has failed, the questions after it change
/// nothing.
proof fn lemma_questions_stuck(st: BufState, qs: Seq<QuestionView>, k: int)
    requires
        0 <= k <= qs.len(),
        put_questions(st, qs.take(k)).1 is Err,
    ensures
        put_questions(st, qs) == put_questions(st, qs.take(k)),
    decreases qs.len() - k,
{
    reveal(put_questions);
    if k < qs.len() {
        assert(qs.take(k + 1).drop_last() =~= qs.take(k));
        lemma_questions_stuck(st, qs, k + 1);
    } else {
        assert(qs.take(k) =~= qs);
    }
}

/// Once writing records has failed, the records after it change nothing.
proof fn lemma_records_stuck(st: BufState, rs: Seq<RecordView>, k: int)
    requires
        0 <= k <= rs.len(),
        put_records(st, rs.take(k)).1 is Err,
    ensures
        put_records(st, rs) == put_records(st, rs.take(k)),
    decreases rs.len() - k,
{
    reveal(put_records);
    if k < rs.len() {
        assert(rs.take(k + 1).drop_last() =~= rs.take(k));
        lemma_records_stuck(st, rs, k + 1);
    } else {
        assert(rs.take(k) =~= rs);
    }
}

/// The bytes that writing the questions `qs` one after the other puts into
/// the buffer.
pub open spec fn questions_bytes(qs: Seq<QuestionView>) -> Seq<u8>
    decreases qs.len(),
{
    if qs.len() == 0 {
        Seq::empty()
    } else {
        questions_bytes(qs.drop_last()) + question_bytes(qs.last())
    }
}

/// The bytes that writing the NS and MX records `rs` one after the other
/// puts into the buffer.
pub open spec fn records_bytes(rs: Seq<RecordView>) -> Seq<u8>
    decreases rs.len(),
{
    if rs.len() == 0 {
        Seq::empty()
    } else {
        records_bytes(rs.drop_last()) + record_bytes(rs.last())
    }
}

/// The bytes that writing the message `p` puts into the buffer, its counts
/// set from what it holds.
pub open spec fn packet_bytes(p: PacketView) -> Seq<u8> {
    header_bytes(counted_header(p)) + questions_bytes(p.questions) + records_bytes(p.answers)
        + records_bytes(p.authorities) + records_bytes(p.resources)
}

/// Every record of `rs` can be written and read back.
pub open spec fn records_fit(rs: Seq<RecordView>) -> bool {
    forall|i: int| 0 <= i < rs.len() ==> #[trigger] record_fits(rs[i])
}

/// A message that can be written and read back: its OPCODE fits in four
/// bits, the names of its questions have labels of 1 to 63 bytes, and all
/// its records are A, NS, CNAME, MX or AAAA records that can be written and
/// read back.
pub open spec fn packet_fits(p: PacketView) -> bool {
    &&& p.header.opcode < 16
    &&& forall|i: int| 0 <= i < p.questions.len() ==> #[trigger] question_fits(p.questions[i])
    &&& records_fit(p.answers)
    &&& records_fit(p.authorities)
    &&& records_fit(p.resources)
}

/// What reading back the written message `p` gives: its header with the
/// counts of what it holds, and each question and record read back.
pub open spec fn packet_read_back(p: PacketView) -> PacketView {
    PacketView {
        header: counted_header(p),
        questions: p.questions.map_values(|q: QuestionView| question_read_back(q)),
        answers: p.answers.map_values(|r: RecordView| record_read_back(r)),
        authorities: p.authorities.map_values(|r: RecordView| record_read_back(r)),
        resources: p.resources.map_values(|r: RecordView| record_read_back(r)),
    }
}

/// Each question takes at least one byte.
proof fn lemma_questions_bytes_len(qs: Seq<QuestionView>)
    ensures
        questions_bytes(qs).len() >= qs.len(),
    decreases qs.len(),
{
    if qs.len() > 0 {
        lemma_questions_bytes_len(qs.drop_last());
    }
}

/// Each record takes at least one byte.
proof fn lemma_records_bytes_len(rs: Seq<RecordView>)
    requires
        records_fit(rs),
    ensures
        records_bytes(rs).len() >= rs.len(),
    decreases rs.len(),
{
    if rs.len() > 0 {
        let last = rs[rs.len() - 1];
        assert(record_fits(last));
        assert(records_fit(rs.drop_last()));
        lemma_record_bytes_len(last);
        lemma_records_bytes_len(rs.drop_last());
    }
}

/// Writing questions that fit is writing their bytes.
proof fn lemma_put_questions(st: BufState, qs: Seq<QuestionView>)
    requires
        buf_wf(st),
        forall|i: int| 0 <= i < qs.len() ==> #[trigger] question_fits(qs[i]),
        st.pos + questions_bytes(qs).len() <= 512,
    ensures
        put_questions(st, qs) == (emit(st, questions_bytes(qs)), Ok::<(), DnsError>(())),
    decreases qs.len(),
{
    reveal(put_questions);
    if qs.len() == 0 {
        lemma_emit_empty(st);
    } else {
        let init = qs.drop_last();
        assert(question_fits(qs[qs.len() - 1]));
        lemma_put_questions(st, init);
        lemma_emit_then(st, questions_bytes(init), question_bytes(qs.last()));
        lemma_put_question(emit(st, questions_bytes(init)), qs.last());
    }
}

/// Writing NS and MX records that fit is writing their bytes.
proof fn lemma_put_records(st: BufState, rs: Seq<RecordView>)
    requires
        buf_wf(st),
        records_fit(rs),
        st.pos + records_bytes(rs).len() <= 512,
    ensures
        put_records(st, rs) == (emit(st, records_bytes(rs)), Ok::<(), DnsError>(())),
    decreases rs.len(),
{
    reveal(put_records);
    if rs.len() == 0 {
        lemma_emit_empty(st);
    } else {
        let init = rs.drop_last();
        assert(record_fits(rs[rs.len() - 1]));
        assert(records_fit(init));
        lemma_put_records(st, init);
        lemma_emit_then(st, records_bytes(init), record_bytes(rs.last()));
        lemma_put_fitting_record(emit(st, records_bytes(init)), rs.last());
    }
}

/// Reading questions where the bytes of questions that fit lie reads them
/// back.
proof fn lemma_take_questions_at(b: Seq<u8>, at: int, qs: Seq<QuestionView>)
    requires
        b.len() == 512,
        0 <= at,
        forall|i: int| 0 <= i < qs.len() ==> #[trigger] question_fits(qs[i]),
        at + questions_bytes(qs).len() <= 512,
        holds_at(b, at, questions_bytes(qs)),
    ensures
        take_questions(BufState { bytes: b, pos: at }, qs.len()) == (
            BufState { bytes: b, pos: at + questions_bytes(qs).len() },
            Ok::<Seq<QuestionView>, DnsError>(
                qs.map_values(|q: QuestionView| question_read_back(q)),
            ),
        ),
    decreases qs.len(),
{
    if qs.len() == 0 {
        assert(qs.map_values(|q: QuestionView| question_read_back(q)) =~= Seq::<QuestionView>::empty());
    } else {
        let init = qs.drop_last();
        let last = qs.last();
        assert(question_fits(qs[qs.len() - 1]));
        lemma_holds_concat(b, at, questions_bytes(init), question_bytes(last));
        lemma_take_questions_at(b, at, init);
        lemma_take_question_at(b, at + questions_bytes(init).len(), last, blank_question());
        assert(Seq::<char>::empty() + question_read_back(last).name =~= question_read_back(last).name);
        assert(init.map_values(|q: QuestionView| question_read_back(q)).push(question_read_back(last))
            =~= qs.map_values(|q: QuestionView| question_read_back(q)));
    }
}

/// Reading records where the bytes of NS and MX records that fit lie reads
/// them back.
proof fn lemma_take_records_at(b: Seq<u8>, at: int, rs: Seq<RecordView>)
    requires
        b.len() == 512,
        0 <= at,
        records_fit(rs),
        at + records_bytes(rs).len() <= 512,
        holds_at(b, at, records_bytes(rs)),
    ensures
        take_records(BufState { bytes: b, pos: at }, rs.len()) == (
            BufState { bytes: b, pos: at + records_bytes(rs).len() },
            Ok::<Seq<RecordView>, DnsError>(rs.map_values(|r: RecordView| record_read_back(r))),
        ),
    decreases rs.len(),
{
    if rs.len() == 0 {
        assert(rs.map_values(|r: RecordView| record_read_back(r)) =~= Seq::<RecordView>::empty());
    } else {
        let init = rs.drop_last();
        let last = rs.last();
        assert(record_fits(rs[rs.len() - 1]));
        assert(records_fit(init));
        lemma_holds_concat(b, at, records_bytes(init), record_bytes(last));
        lemma_take_records_at(b, at, init);
        lemma_take_record_at(b, at + records_bytes(init).len(), last);
        assert(init.map_values(|r: RecordView| record_read_back(r)).push(record_read_back(last))
            =~= rs.map_values(|r: RecordView| record_read_back(r)));
    }
}

/// What a message read gives back of a message write: once a message whose
/// OPCODE fits in four bits, whose question names have labels of 1 to 63
/// bytes and whose records are all A, NS, CNAME, MX or AAAA records that
/// can be written and read back has
/// been written where it fits, reading a message at the same place gives
/// back its header with the counts of what it holds, its questions and its
/// records, each read back (names as their labels' text), and leaves the
/// cursor where the write left it.
pub proof fn lemma_packet_roundtrip(st: BufState, p: PacketView)
    requires
        buf_wf(st),
        packet_fits(p),
        st.pos + packet_bytes(p).len() <= 512,
    ensures
        ({
            let w = put_packet(st, counted(p));
            &&& w.1 == Ok::<(), DnsError>(())
            &&& w.0 == emit(st, packet_bytes(p))
            &&& take_packet(BufState { bytes: w.0.bytes, pos: st.pos }) == (w.0, Ok::<
                PacketView,
                DnsError,
            >(packet_read_back(p)))
        }),
{
    let h = counted_header(p);
    let hb = header_bytes(h);
    let qb = questions_bytes(p.questions);
    let ab = records_bytes(p.answers);
    let nb = records_bytes(p.authorities);
    let rb = records_bytes(p.resources);
    assert(hb.len() == 12);
    lemma_questions_bytes_len(p.questions);
    lemma_records_bytes_len(p.answers);
    lemma_records_bytes_len(p.authorities);
    lemma_records_bytes_len(p.resources);
    // writing: the header, then each section, each where the one before ended
    let s1 = emit(st, hb);
    lemma_emit_then(st, hb, qb);
    lemma_put_questions(s1, p.questions);
    let s2 = emit(st, hb + qb);
    lemma_emit_then(st, hb + qb, ab);
    lemma_put_records(s2, p.answers);
    let s3 = emit(st, hb + qb + ab);
    lemma_emit_then(st, hb + qb + ab, nb);
    lemma_put_records(s3, p.authorities);
    let s4 = emit(st, hb + qb + ab + nb);
    lemma_emit_then(st, hb + qb + ab + nb, rb);
    lemma_put_records(s4, p.resources);
    let all = packet_bytes(p);
    let w = emit(st, all);
    assert(put_packet(st, counted(p)) == (w, Ok::<(), DnsError>(())));
    // reading: each part lies where it was written
    lemma_emit_holds(st, all);
    let b = w.bytes;
    lemma_holds_concat(b, st.pos, hb + qb + ab + nb, rb);
    lemma_holds_concat(b, st.pos, hb + qb + ab, nb);
    lemma_holds_concat(b, st.pos, hb + qb, ab);
    lemma_holds_concat(b, st.pos, hb, qb);
    lemma_take_header_at(b, st.pos, h, empty_header());
    lemma_take_questions_at(b, st.pos + 12, p.questions);
    lemma_take_records_at(b, st.pos + 12 + qb.len(), p.answers);
    lemma_take_records_at(b, st.pos + 12 + qb.len() + ab.len(), p.authorities);
    lemma_take_records_at(b, st.pos + 12 + qb.len() + ab.len() + nb.len(), p.resources);
    assert(h.question_count as nat == p.questions.len());
    assert(h.answer_count as nat == p.answers.len());
    assert(h.authority_count as nat == p.authorities.len());
    assert(h.additional_count as nat == p.resources.len());
}

impl DnsPacket {
    /// A message with the empty header and no questions or records.
    pub fn new() -> (p: DnsPacket)
        ensures
            p@ == empty_packet(),
    {
        let p = DnsPacket {
            header: DnsHeader::new(),
            questions: Vec::new(),
            answers: Vec::new(),
            authorities: Vec::new(),
            resources: Vec::new(),
        };
        assert(p@.questions =~= Seq::<QuestionView>::empty());
        assert(p@.answers =~= Seq::<RecordView>::empty());
        assert(p@.authorities =~= Seq::<RecordView>::empty());
        assert(p@.resources =~= Seq::<RecordView>::empty());
        p
    }

    /// Reads a whole message at the cursor of `buf`: the header, then as many
    /// questions, answers, authority records and additional records as its
    /// counts say. Fails with the first error of these reads, the cursor
    /// left where that read left it.
    pub fn from_buffer(buf: &mut BytePacketBuffer) -> (r: Result<DnsPacket>)
        ensures
            final(buf)@ == take_packet(old(buf)@).0,
            final(buf).buf@ == old(buf).buf@,
            match r {
                Ok(p) => take_packet(old(buf)@).1 == Ok::<PacketView, DnsError>(p@),
                Err(e) => take_packet(old(buf)@).1 == Err::<PacketView, DnsError>(e),
            },
    {
        let mut result = DnsPacket::new();
        result.header.read(buf)?;

        let ghost s1 = buf@;
        let question_count = result.header.question_count;
        let mut i: u16 = 0;
        assert(question_views(result.questions@) =~= Seq::<QuestionView>::empty());
        while i < question_count
            invariant
                i <= question_count,
                buf.buf@ == old(buf).buf@,
                question_count == result.header.question_count,
                (result.header, s1, Ok::<(), DnsError>(())) == take_header(empty_header(), old(buf)@),
                take_questions(s1, i as nat) == (buf@, Ok::<Seq<QuestionView>, DnsError>(
                    question_views(result.questions@),
                )),
            decreases question_count - i,
        {
            let mut question = DnsQuestion::new(String::new(), QueryType::UNKNOWN(0));
            let qr = question.read(buf);
            if qr.is_err() {
                proof {
                    lemma_take_questions_stuck(s1, (i + 1) as nat, question_count as nat);
                }
                return Err(qr.unwrap_err());
            }
            let ghost before = result.questions@;
            let ghost q = question@;
            result.questions.push(question);
            assert(question_views(result.questions@) =~= question_views(before).push(q));
            i += 1;
        }

        result.answers = read_records(buf, result.header.answer_count)?;
        result.authorities = read_records(buf, result.header.authority_count)?;
        result.resources = read_records(buf, result.header.additional_count)?;

        assert(result@ == take_packet(old(buf)@).1->Ok_0);
        Ok(result)
    }

    /// Sets the four counts of the header to the number of questions and
    /// records held (each modulo 65536), then writes the message at the
    /// cursor of `buf`: header, questions, answers, authority records and
    /// additional records. Fails with the first error of these writes, the
    /// bytes before it written.
    pub fn write(&mut self, buf: &mut BytePacketBuffer) -> (r: Result<()>)
        ensures
            final(self)@ == counted(old(self)@),
            (final(buf)@, r) == put_packet(old(buf)@, counted(old(self)@)),
    {
        self.header.question_count = self.questions.len() as u16;
        self.header.answer_count = self.answers.len() as u16;
        self.header.authority_count = self.authorities.len() as u16;
        self.header.additional_count = self.resources.len() as u16;
        assert(self@ =~= counted(old(self)@));

        self.header.write(buf)?;

        write_questions(buf, &self.questions)?;
        write_records(buf, &self.answers)?;
        write_records(buf, &self.authorities)?;
        write_records(buf, &self.resources)?;

        Ok(())
    }
}

/// Writes the questions `questions` one after the other at the cursor of
/// `buf`.
fn write_questions(buf: &mut BytePacketBuffer, questions: &Vec<DnsQuestion>) -> (r: Result<()>)
    ensures
        (final(buf)@, r) == put_questions(old(buf)@, question_views(questions@)),
{
    let ghost st = buf@;
    let ghost qs = question_views(questions@);
    let mut i: usize = 0;
    proof {
        reveal(put_questions);
        assert(qs.take(0) =~= Seq::<QuestionView>::empty());
    }
    while i < questions.len()
        invariant
            i <= questions.len(),
            st == old(buf)@,
            qs == question_views(questions@),
            (buf@, Ok::<(), DnsError>(())) == put_questions(st, qs.take(i as int)),
        decreases questions.len() - i,
    {
        proof {
            reveal(put_questions);
            assert(qs.take(i + 1).drop_last() =~= qs.take(i as int));
            assert(qs.take(i + 1).last() == questions@[i as int]@);
        }
        let w = questions[i].write(buf);
        if w.is_err() {
            proof {
                lemma_questions_stuck(st, qs, i + 1);
            }
            return w;
        }
        i += 1;
    }
    assert(qs.take(questions.len() as int) =~= qs);
    Ok(())
}

/// Writes the records `records` one after the other at the cursor of
/// `buf`.
fn write_records(buf: &mut BytePacketBuffer, records: &Vec<DnsRecord>) -> (r: Result<()>)
    ensures
        (final(buf)@, r) == put_records(old(buf)@, record_views(records@)),
{
    let ghost st = buf@;
    let ghost rs = record_views(records@);
    let mut i: usize = 0;
    proof {
        reveal(put_records);
        assert(rs.take(0) =~= Seq::<RecordView>::empty());
    }
    while i < records.len()
        invariant
            i <= records.len(),
            st == old(buf)@,
            rs == record_views(records@),
            (buf@, Ok::<(), DnsError>(())) == put_records(st, rs.take(i as int)),
        decreases records.len() - i,
    {
        proof {
            reveal(put_records);
            assert(rs.take(i + 1).drop_last() =~= rs.take(i as int));
            assert(rs.take(i + 1).last() == records@[i as int]@);
        }
        let w = records[i].write(buf);
        if w.is_err() {
            proof {
                lemma_records_stuck(st, rs, i + 1);
            }
            return Err(w.unwrap_err());
        }
        i += 1;
    }
    assert(rs.take(records.len() as int) =~= rs);
    Ok(())
}

/// Reads `count` resource records one after the other at the cursor of
/// `buf`.
fn read_records(buf: &mut BytePacketBuffer, count: u16) -> (r: Result<Vec<DnsRecord>>)
    ensures
        final(buf)@ == take_records(old(buf)@, count as nat).0,
        final(buf).buf@ == old(buf).buf@,
        match r {
            Ok(rs) => take_records(old(buf)@, count as nat).1 == Ok::<Seq<RecordView>, DnsError>(
                record_views(rs@),
            ),
            Err(e) => take_records(old(buf)@, count as nat).1 == Err::<Seq<RecordView>, DnsError>(e),
        },
{
    let ghost st = buf@;
    let mut records: Vec<DnsRecord> = Vec::new();
    let mut i: u16 = 0;
    assert(record_views(records@) =~= Seq::<RecordView>::empty());
    while i < count
        invariant
            i <= count,
            st == old(buf)@,
            buf.buf@ == old(buf).buf@,
            take_records(st, i as nat) == (buf@, Ok::<Seq<RecordView>, DnsError>(
                record_views(records@),
            )),
        decreases count - i,
    {
        let rr = DnsRecord::read(buf);
        if rr.is_err() {
            proof {
                lemma_take_records_stuck(st, (i + 1) as nat, count as nat);
            }
            return Err(rr.unwrap_err());
        }
        let rec = rr.unwrap();
        let ghost before = records@;
        records.push(rec);
        assert(record_views(records@) =~= record_views(before).push(rec@));
        i += 1;
    }
    Ok(records)
}

impl Default for DnsPacket {
    fn default() -> (p: Self)
        ensures
            p@ == empty_packet(),
    {
        Self::new()
    }
}

/// Records whose names are all lowercase ASCII.
pub open spec fn records_lowercase(rs: Seq<RecordView>) -> bool {
    forall|i: int| 0 <= i < rs.len() ==> #[trigger] record_names_lowercase(rs[i])
}

/// A message that reads back as itself: the names of its questions and
/// records are lowercase ASCII, and each question type is one that `from_num`
/// gives back from its number.
pub open spec fn packet_kept(p: PacketView) -> bool {
    &&& forall|i: int|
        0 <= i < p.questions.len() ==> lowercase_ascii(#[trigger] p.questions[i].name)
            && is_canonical_query_type(p.questions[i].qtype)
    &&& records_lowercase(p.answers)
    &&& records_lowercase(p.authorities)
    &&& records_lowercase(p.resources)
}

/// Records that can be written and read back, with lowercase ASCII names,
/// read back as themselves.
proof fn lemma_records_kept(rs: Seq<RecordView>)
    requires
        records_fit(rs),
        records_lowercase(rs),
    ensures
        rs.map_values(|r: RecordView| record_read_back(r)) == rs,
{
    assert forall|i: int| 0 <= i < rs.len() implies #[trigger] record_read_back(rs[i]) == rs[i] by {
        assert(record_fits(rs[i]));
        assert(record_names_lowercase(rs[i]));
        lemma_lowercase_record_read_back(rs[i]);
    }
    assert(rs.map_values(|r: RecordView| record_read_back(r)) =~= rs);
}

/// What a message read gives back of a message write, for a message that
/// reads back as itself: once a message that can be written and read back,
/// whose names are lowercase ASCII and whose question types survive the
/// trip through their numbers, has been written where it fits, reading a
/// message at the same place gives back the message itself, its header
/// counting what it holds, and leaves the cursor where the write left it.
pub proof fn lemma_lowercase_packet_roundtrip(st: BufState, p: PacketView)
    requires
        buf_wf(st),
        packet_fits(p),
        packet_kept(p),
        st.pos + packet_bytes(p).len() <= 512,
    ensures
        ({
            let w = put_packet(st, counted(p));
            &&& w.1 == Ok::<(), DnsError>(())
            &&& take_packet(BufState { bytes: w.0.bytes, pos: st.pos }) == (w.0, Ok::<
                PacketView,
                DnsError,
            >(counted(p)))
        }),
{
    lemma_packet_roundtrip(st, p);
    assert forall|i: int| 0 <= i < p.questions.len() implies #[trigger] question_read_back(
        p.questions[i],
    ) == p.questions[i] by {
        let q = p.questions[i];
        lemma_lowercase_name_text(q.name);
        lemma_query_type_value_roundtrip(q.qtype);
    }
    assert(p.questions.map_values(|q: QuestionView| question_read_back(q)) =~= p.questions);
    lemma_records_kept(p.answers);
    lemma_records_kept(p.authorities);
    lemma_records_kept(p.resources);
    assert(packet_read_back(p) == counted(p));
}

} // verus!
