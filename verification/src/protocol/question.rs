use vstd::prelude::*;
use vstd::utf8::encode_utf8;

use crate::types::bytepacket_buffer::{BytePacketBuffer, Result};
use crate::types::error::DnsError;
use crate::types::query_type::{query_type_num, query_type_of, QueryType};
use crate::types::wire::{
    buf_wf, emit, holds_at, labels_fit, lemma_emit_holds, lemma_emit_then, lemma_holds_concat,
    lemma_peek_held, lemma_plan_fits, lemma_qname_roundtrip, lemma_scan_plan, lemma_u16_roundtrip,
    name_text, qname_plan, qname_scan, take_u16, then_emit, then_name, u16_bytes, BufState,
};

verus! {

/// A question: the name asked about and the type of record wanted.
#[derive(Debug, Clone, PartialEq, Eq)]
pub struct DnsQuestion {
    pub name: String,
    pub qtype: QueryType,
}

/// A question with its name as a character sequence.
pub struct QuestionView {
    pub name: Seq<char>,
    pub qtype: QueryType,
}

impl View for DnsQuestion {
    type V = QuestionView;

    open spec fn view(&self) -> QuestionView {
        QuestionView { name: self.name@, qtype: self.qtype }
    }
}

/// Reading a question at the cursor into `q`: the name is appended to the
/// name `q` has, then the type and the class (ignored) are read. The type
/// is stored as soon as it is read; reading stops at the first failure.
#[verifier::opaque]
pub open spec fn take_question(q: QuestionView, st: BufState) -> (QuestionView, BufState, Result<()>) {
    let scan = qname_scan(st.bytes, st.pos, 0, false, true);
    let s1 = BufState {
        bytes: st.bytes,
        pos: match scan.seek {
            Some(p) => p,
            None => st.pos,
        },
    };
    let q1 = QuestionView { name: q.name + scan.text, ..q };
    let (s2, qtype) = take_u16(s1);
    let (s3, class) = take_u16(s2);
    if scan.result is Err {
        (q1, s1, Err(scan.result->Err_0))
    } else if qtype is None {
        (q1, s2, Err(DnsError::EndOfBuffer))
    } else {
        let q2 = QuestionView { qtype: query_type_of(qtype->0), ..q1 };
        if class is None {
            (q2, s3, Err(DnsError::EndOfBuffer))
        } else {
            (q2, s3, Ok(()))
        }
    }
}

/// After a write that may have failed, writing the question `q`: its name,
/// its type number and class 1 (IN).
pub open spec fn then_question(prev: (BufState, Result<()>), q: QuestionView) -> (BufState, Result<()>) {
    then_emit(then_emit(then_name(prev, q.name), u16_bytes(query_type_num(q.qtype))), u16_bytes(1))
}

/// The bytes that writing the question `q` puts into the buffer.
pub open spec fn question_bytes(q: QuestionView) -> Seq<u8> {
    qname_plan(encode_utf8(q.name)).0 + u16_bytes(query_type_num(q.qtype)) + u16_bytes(1)
}

/// A question that can be written and read back: its name has labels of
/// 1 to 63 bytes.
pub open spec fn question_fits(q: QuestionView) -> bool {
    labels_fit(encode_utf8(q.name))
}

/// What reading back the written question `q` gives: the text of its
/// name's labels, and its type as `from_num` reads its number.
pub open spec fn question_read_back(q: QuestionView) -> QuestionView {
    QuestionView {
        name: name_text(encode_utf8(q.name)),
        qtype: query_type_of(query_type_num(q.qtype)),
    }
}

/// Writing a question that fits is writing its bytes.
pub proof fn lemma_put_question(st: BufState, q: QuestionView)
    requires
        buf_wf(st),
        question_fits(q),
        st.pos + question_bytes(q).len() <= 512,
    ensures
        then_question((st, Ok(())), q) == (emit(st, question_bytes(q)), Ok::<(), DnsError>(())),
        question_bytes(q).len() == encode_utf8(q.name).len() + 6,
{
    let s = encode_utf8(q.name);
    let num = query_type_num(q.qtype);
    lemma_plan_fits(s);
    lemma_qname_roundtrip(st, s);
    let plan = qname_plan(s).0;
    lemma_emit_then(st, plan, u16_bytes(num));
    lemma_emit_then(st, plan + u16_bytes(num), u16_bytes(1));
}

/// A question is written as its name, then its type number, big-endian,
/// then class IN: the four bytes after the name are the type's high and low
/// bytes, then 0 and 1, whatever the type. Where it fits, writing it puts
/// exactly these bytes at the cursor.
pub proof fn lemma_question_layout(st: BufState, q: QuestionView)
    ensures
        ({
            let n = query_type_num(q.qtype);
            question_bytes(q) == qname_plan(encode_utf8(q.name)).0 + seq![
                (n / 256) as u8,
                (n % 256) as u8,
                0u8,
                1u8,
            ]
        }),
        ({
            let n = query_type_num(q.qtype);
            (buf_wf(st) && question_fits(q) && st.pos + encode_utf8(q.name).len() + 6 <= 512)
                ==> then_question((st, Ok(())), q) == (
                emit(
                    st,
                    qname_plan(encode_utf8(q.name)).0 + seq![
                        (n / 256) as u8,
                        (n % 256) as u8,
                        0u8,
                        1u8,
                    ],
                ),
                Ok::<(), DnsError>(()),
            )
        }),
{
    let n = query_type_num(q.qtype);
    let plan = qname_plan(encode_utf8(q.name)).0;
    assert(question_bytes(q) =~= plan + seq![(n / 256) as u8, (n % 256) as u8, 0u8, 1u8]);
    if buf_wf(st) && question_fits(q) && st.pos + encode_utf8(q.name).len() + 6 <= 512 {
        lemma_plan_fits(encode_utf8(q.name));
        lemma_put_question(st, q);
    }
}

/// Reading a question where the bytes of a question that fits lie reads it
/// back: its name's text is appended and its type is read.
pub proof fn lemma_take_question_at(b: Seq<u8>, at: int, q: QuestionView, into: QuestionView)
    requires
        b.len() == 512,
        0 <= at,
        question_fits(q),
        at + question_bytes(q).len() <= 512,
        holds_at(b, at, question_bytes(q)),
    ensures
        take_question(into, BufState { bytes: b, pos: at }) == (
            QuestionView { name: into.name + question_read_back(q).name, qtype: question_read_back(q).qtype },
            BufState { bytes: b, pos: at + question_bytes(q).len() },
            Ok::<(), DnsError>(()),
        ),
{
    reveal(take_question);
    let s = encode_utf8(q.name);
    let num = query_type_num(q.qtype);
    lemma_plan_fits(s);
    let plan = qname_plan(s).0;
    lemma_holds_concat(b, at, plan + u16_bytes(num), u16_bytes(1));
    lemma_holds_concat(b, at, plan, u16_bytes(num));
    lemma_scan_plan(b, at, s, true);
    assert(Seq::<char>::empty() + name_text(s) =~= name_text(s));
    lemma_peek_held(b, at + plan.len(), u16_bytes(num));
    lemma_u16_roundtrip(num);
}

/// What a question read gives back of a question write: once a question
/// whose name has labels of 1 to 63 bytes has been written where it fits,
/// reading at the same place, into any question, appends the text of the
/// name's labels to its name, gives the type back (as `from_num` reads its
/// number) and leaves the cursor where the write left it.
pub proof fn lemma_question_roundtrip(st: BufState, q: QuestionView, into: QuestionView)
    requires
        buf_wf(st),
        labels_fit(encode_utf8(q.name)),
        st.pos + encode_utf8(q.name).len() + 6 <= 512,
    ensures
        ({
            let w = then_question((st, Ok(())), q);
            &&& w.1 == Ok::<(), DnsError>(())
            &&& w.0.pos == st.pos + encode_utf8(q.name).len() + 6
            &&& take_question(into, BufState { bytes: w.0.bytes, pos: st.pos }) == (
                QuestionView {
                    name: into.name + name_text(encode_utf8(q.name)),
                    qtype: query_type_of(query_type_num(q.qtype)),
                },
                w.0,
                Ok::<(), DnsError>(()),
            )
        }),
{
    lemma_plan_fits(encode_utf8(q.name));
    lemma_put_question(st, q);
    lemma_emit_holds(st, question_bytes(q));
    lemma_take_question_at(emit(st, question_bytes(q)).bytes, st.pos, q, into);
}

impl DnsQuestion {
    /// The question for `name` and `qtype`.
    pub fn new(name: String, qtype: QueryType) -> (q: DnsQuestion)
        ensures
            q.name == name,
            q.qtype == qtype,
    {
        DnsQuestion { name, qtype }
    }

    /// Reads a question at the cursor of `buf` into this one: its name is
    /// appended to `self.name`, then the type is read into `self.qtype` and
    /// the class is read and dropped. Fails with the first error of these
    /// reads, what was read before it stored.
    pub fn read(&mut self, buf: &mut BytePacketBuffer) -> (r: Result<()>)
        ensures
            (final(self)@, final(buf)@, r) == take_question(old(self)@, old(buf)@),
            final(buf).buf@ == old(buf).buf@,
    {
        proof {
            reveal(take_question);
        }
        buf.read_qname(&mut self.name)?;
        self.qtype = QueryType::from_num(buf.read_u16()?);

        let _ = buf.read_u16()?; // the class
        Ok(())
    }

    /// Writes this question at the cursor of `buf`: its name, its type
    /// number and class 1 (IN). Fails with the first error of these writes,
    /// the bytes before it written.
    pub fn write(&self, buf: &mut BytePacketBuffer) -> (r: Result<()>)
        ensures
            (final(buf)@, r) == then_question((old(buf)@, Ok(())), self@),
    {
        buf.write_qname(self.name.as_str())?;
        buf.write_u16(self.qtype.to_num())?;
        buf.write_u16(1)?;
        Ok(())
    }
}

} // verus!
