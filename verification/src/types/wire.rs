use vstd::prelude::*;

use crate::types::error::DnsError;
use crate::types::text::{ascii_bytes, ascii_lower, label_text, lemma_lowercase_ascii_bytes, lowercase_ascii};
use vstd::utf8::encode_utf8;

verus! {

/// The abstract state of a packet buffer: its bytes and its cursor.
#[verifier::ext_equal]
pub struct BufState {
    pub bytes: Seq<u8>,
    pub pos: int,
}

/// A well-formed buffer state: 512 bytes and a cursor that is not negative.
pub open spec fn buf_wf(st: BufState) -> bool {
    st.bytes.len() == 512 && st.pos >= 0
}

/// How many of `n` bytes starting at the cursor `pos` lie inside the buffer:
/// reading or writing `n` bytes one at a time moves the cursor this far
/// before the first access past the end fails.
pub open spec fn reach(pos: int, n: int) -> int {
    if pos >= 512 {
        0
    } else if pos + n <= 512 {
        n
    } else {
        512 - pos
    }
}

/// `n` bytes starting at the cursor `pos` can be read or written in full.
pub open spec fn fits(pos: int, n: int) -> bool {
    n == 0 || pos + n <= 512
}

/// The bytes of the buffer `st` after writing `data` byte by byte at the
/// cursor: those of `data` that lie inside the buffer replace what was
/// there.
#[verifier::opaque]
pub open spec fn emit_bytes(st: BufState, data: Seq<u8>) -> Seq<u8> {
    let k = reach(st.pos, data.len() as int);
    Seq::new(
        st.bytes.len(),
        |i: int|
            if st.pos <= i < st.pos + k {
                data[i - st.pos]
            } else {
                st.bytes[i]
            },
    )
}

/// The buffer after writing `data` byte by byte at the cursor: the bytes
/// that lie inside the buffer are stored and the cursor moves past them.
pub open spec fn emit(st: BufState, data: Seq<u8>) -> BufState {
    BufState { bytes: emit_bytes(st, data), pos: st.pos + reach(st.pos, data.len() as int) }
}

/// The bytes after a write, one by one.
pub proof fn lemma_emit_bytes(st: BufState, data: Seq<u8>)
    ensures
        emit(st, data).bytes.len() == st.bytes.len(),
        forall|i: int|
            0 <= i < st.bytes.len() ==> #[trigger] emit(st, data).bytes[i] == if st.pos <= i < st.pos
                + reach(st.pos, data.len() as int) {
                data[i - st.pos]
            } else {
                st.bytes[i]
            },
{
    reveal(emit_bytes);
}

/// The buffer after reading `n` bytes one at a time at the cursor.
pub open spec fn advance(st: BufState, n: int) -> BufState {
    BufState { bytes: st.bytes, pos: st.pos + reach(st.pos, n) }
}

/// The `n` bytes at the cursor.
pub open spec fn peek(st: BufState, n: int) -> Seq<u8> {
    st.bytes.subrange(st.pos, st.pos + n)
}

/// The big-endian number in the first two bytes of `b`.
pub open spec fn be16(b: Seq<u8>) -> int {
    b[0] * 256 + b[1]
}

/// The big-endian number in the first four bytes of `b`.
pub open spec fn be32(b: Seq<u8>) -> int {
    b[0] * 0x1000000 + b[1] * 0x10000 + b[2] * 0x100 + b[3]
}

/// The two big-endian bytes of the 16-bit value `v`.
pub open spec fn u16_bytes(v: u16) -> Seq<u8> {
    seq![(v / 256) as u8, (v % 256) as u8]
}

/// The four big-endian bytes of the 32-bit value `v`.
pub open spec fn u32_bytes(v: u32) -> Seq<u8> {
    seq![(v / 0x1000000) as u8, ((v / 0x10000) % 256) as u8, ((v / 256) % 256) as u8, (v % 256) as u8]
}

/// Writing `a` and then `b` is writing `a + b`; once a write runs past the
/// end of the buffer, whatever follows it changes nothing more.
pub proof fn lemma_emit_then(st: BufState, a: Seq<u8>, b: Seq<u8>)
    requires
        buf_wf(st),
    ensures
        fits(st.pos, a.len() as int) ==> emit(emit(st, a), b) == emit(st, a + b),
        !fits(st.pos, a.len() as int) ==> emit(st, a + b) == emit(st, a),
        fits(st.pos, (a + b).len() as int) == (fits(st.pos, a.len() as int) && fits(
            emit(st, a).pos,
            b.len() as int,
        )),
        buf_wf(emit(st, a)),
{
    reveal(emit_bytes);
    let ab = a + b;
    if fits(st.pos, a.len() as int) {
        assert(emit(emit(st, a), b).bytes =~= emit(st, ab).bytes);
    } else {
        assert(emit(st, ab).bytes =~= emit(st, a).bytes);
    }
}

/// Writing `data` and then the byte `b` is writing `data.push(b)`; the byte
/// fits exactly when the cursor is still inside the buffer.
pub proof fn lemma_emit_step(st: BufState, data: Seq<u8>, b: u8)
    requires
        buf_wf(st),
        fits(st.pos, data.len() as int),
    ensures
        emit(emit(st, data), seq![b]) == emit(st, data.push(b)),
        fits(st.pos, data.push(b).len() as int) == (emit(st, data).pos < 512),
        buf_wf(emit(st, data)),
{
    lemma_emit_then(st, data, seq![b]);
    assert(data + seq![b] =~= data.push(b));
}

/// Once writing `data` has run past the end of the buffer, writing more
/// changes nothing.
pub proof fn lemma_emit_stuck(st: BufState, data: Seq<u8>, more: Seq<u8>)
    requires
        buf_wf(st),
        !fits(st.pos, data.len() as int),
    ensures
        emit(st, data + more) == emit(st, data),
        !fits(st.pos, (data + more).len() as int),
{
    lemma_emit_then(st, data, more);
}

/// Writing `piece` after a prefix `done` that fitted: the writes compose,
/// and where `piece` does not fit, nothing written after it matters.
pub proof fn lemma_emit_prefix(st: BufState, done: Seq<u8>, piece: Seq<u8>, rest: Seq<u8>)
    requires
        buf_wf(st),
        fits(st.pos, done.len() as int),
    ensures
        emit(emit(st, done), piece) == emit(st, done + piece),
        fits(emit(st, done).pos, piece.len() as int) == fits(st.pos, (done + piece).len() as int),
        !fits(st.pos, (done + piece).len() as int) ==> emit(st, done + piece + rest) == emit(
            st,
            done + piece,
        ) && !fits(st.pos, (done + piece + rest).len() as int),
        buf_wf(emit(st, done)),
{
    lemma_emit_then(st, done, piece);
    if !fits(st.pos, (done + piece).len() as int) {
        lemma_emit_stuck(st, done + piece, rest);
    }
}

/// Writing nothing leaves the buffer as it was.
pub proof fn lemma_emit_empty(st: BufState)
    requires
        buf_wf(st),
    ensures
        emit(st, Seq::empty()) == st,
{
    reveal(emit_bytes);
    assert(emit(st, Seq::empty()).bytes =~= st.bytes);
}

/// What a read gives back of a write: after writing the bytes `data` at
/// the cursor of a buffer where they fit, the bytes from the old cursor on
/// are `data`, the bytes elsewhere are unchanged, and the cursor is past
/// them.
pub proof fn lemma_read_back(st: BufState, data: Seq<u8>)
    requires
        buf_wf(st),
        st.pos + data.len() <= 512,
    ensures
        peek(BufState { bytes: emit(st, data).bytes, pos: st.pos }, data.len() as int) == data,
        emit(st, data).pos == st.pos + data.len(),
        buf_wf(emit(st, data)),
        forall|i: int|
            0 <= i < 512 && !(st.pos <= i < st.pos + data.len()) ==> #[trigger] emit(st, data).bytes[i]
                == st.bytes[i],
{
    lemma_emit_bytes(st, data);
    let back = peek(BufState { bytes: emit(st, data).bytes, pos: st.pos }, data.len() as int);
    assert forall|j: int| 0 <= j < data.len() implies back[j] == data[j] by {
        assert(back[j] == emit(st, data).bytes[st.pos + j]);
    }
    assert(back =~= data);
}

/// A 16-bit value written big-endian reads back as itself.
pub proof fn lemma_u16_roundtrip(v: u16)
    ensures
        be16(u16_bytes(v)) == v,
        u16_bytes(v).len() == 2,
{
}

/// Numbers are written big-endian, most significant byte first: the two
/// bytes of a 16-bit value and the four of a 32-bit value, taken as digits
/// in base 256, give the value back.
pub proof fn lemma_number_bytes(v: u16, w: u32)
    ensures
        u16_bytes(v).len() == 2,
        u16_bytes(v)[0] * 256 + u16_bytes(v)[1] == v,
        u32_bytes(w).len() == 4,
        u32_bytes(w)[0] * 0x1000000 + u32_bytes(w)[1] * 0x10000 + u32_bytes(w)[2] * 0x100
            + u32_bytes(w)[3] == w,
{
    lemma_u16_roundtrip(v);
    lemma_u32_roundtrip(w);
}

/// A 32-bit value written big-endian reads back as itself.
pub proof fn lemma_u32_roundtrip(v: u32)
    ensures
        be32(u32_bytes(v)) == v,
        u32_bytes(v).len() == 4,
{
    let x = v as int;
    assert(x / 0x10000 == (x / 256) / 256);
    assert(x / 0x1000000 == ((x / 256) / 256) / 256);
    assert((x / 256) * 256 + x % 256 == x);
    assert(((x / 256) / 256) * 256 + (x / 256) % 256 == x / 256);
    assert((((x / 256) / 256) / 256) * 256 + ((x / 256) / 256) % 256 == (x / 256) / 256);
}

/// `b` holds `piece` from `q` on.
pub open spec fn holds_at(b: Seq<u8>, q: int, piece: Seq<u8>) -> bool {
    forall|i: int| 0 <= i < piece.len() ==> b[q + i] == #[trigger] piece[i]
}

/// Where `b` holds `piece` from `q` on, reading there gives `piece`.
pub proof fn lemma_peek_held(b: Seq<u8>, q: int, piece: Seq<u8>)
    requires
        holds_at(b, q, piece),
        0 <= q,
        q + piece.len() <= b.len(),
    ensures
        peek(BufState { bytes: b, pos: q }, piece.len() as int) == piece,
{
    assert(peek(BufState { bytes: b, pos: q }, piece.len() as int) =~= piece);
}

/// `b` holds `x + y` from `q` on exactly when it holds `x` there and `y`
/// right after it.
pub proof fn lemma_holds_concat(b: Seq<u8>, q: int, x: Seq<u8>, y: Seq<u8>)
    ensures
        holds_at(b, q, x + y) == (holds_at(b, q, x) && holds_at(b, q + x.len(), y)),
{
    if holds_at(b, q, x + y) {
        assert forall|i: int| 0 <= i < x.len() implies b[q + i] == #[trigger] x[i] by {
            assert((x + y)[i] == x[i]);
        }
        assert forall|i: int| 0 <= i < y.len() implies b[q + x.len() + i] == #[trigger] y[i] by {
            assert((x + y)[x.len() + i] == y[i]);
        }
    }
    if holds_at(b, q, x) && holds_at(b, q + x.len(), y) {
        assert forall|i: int| 0 <= i < (x + y).len() implies b[q + i] == #[trigger] (x + y)[i] by {
            if i < x.len() {
                assert(b[q + i] == x[i]);
            } else {
                assert(b[q + x.len() + (i - x.len())] == y[i - x.len()]);
            }
        }
    }
}

/// After writing `data` where it fits, the buffer holds `data` from the
/// old cursor on.
pub proof fn lemma_emit_holds(st: BufState, data: Seq<u8>)
    requires
        buf_wf(st),
        st.pos + data.len() <= 512,
    ensures
        holds_at(emit(st, data).bytes, st.pos, data),
        buf_wf(emit(st, data)),
        emit(st, data).pos == st.pos + data.len(),
{
    lemma_read_back(st, data);
    let e = emit(st, data);
    assert forall|i: int| 0 <= i < data.len() implies e.bytes[st.pos + i] == #[trigger] data[i] by {
        assert(peek(BufState { bytes: e.bytes, pos: st.pos }, data.len() as int)[i] == e.bytes[st.pos
            + i]);
    }
}

/// Changing one byte of what is written is changing that byte after the
/// write.
pub proof fn lemma_emit_update(st: BufState, data: Seq<u8>, j: int, v: u8)
    requires
        buf_wf(st),
        0 <= j < data.len(),
        st.pos + data.len() <= 512,
    ensures
        emit(st, data).bytes.update(st.pos + j, v) == emit(st, data.update(j, v)).bytes,
{
    reveal(emit_bytes);
    assert(emit(st, data).bytes.update(st.pos + j, v) =~= emit(st, data.update(j, v)).bytes);
}

/// Index of the first `.` in `s`, or its length when it holds none.
pub open spec fn label_end(s: Seq<u8>) -> int
    decreases s.len(),
{
    if s.len() == 0 {
        0
    } else if s[0] == 0x2e {
        0
    } else {
        1 + label_end(s.drop_first())
    }
}

/// `label_end` is the unique index at which the first label of `s` ends.
pub proof fn lemma_label_end(s: Seq<u8>)
    ensures
        0 <= label_end(s) <= s.len(),
        forall|j: int| 0 <= j < label_end(s) ==> s[j] != 0x2e,
        label_end(s) < s.len() ==> s[label_end(s)] == 0x2e,
    decreases s.len(),
{
    if s.len() > 0 && s[0] != 0x2e {
        lemma_label_end(s.drop_first());
        assert forall|j: int| 0 <= j < label_end(s) implies s[j] != 0x2e by {
            if j > 0 {
                assert(s[j] == s.drop_first()[j - 1]);
            }
        }
    }
}

/// An index before which no `.` occurs and at which `s` ends or has a `.`
/// is `label_end(s)`.
pub proof fn lemma_label_end_unique(s: Seq<u8>, k: int)
    requires
        0 <= k <= s.len(),
        forall|j: int| 0 <= j < k ==> s[j] != 0x2e,
        k == s.len() || s[k] == 0x2e,
    ensures
        label_end(s) == k,
    decreases s.len(),
{
    if s.len() > 0 && k > 0 {
        assert(s[0] != 0x2e);
        let t = s.drop_first();
        assert forall|j: int| 0 <= j < k - 1 implies t[j] != 0x2e by {
            assert(t[j] == s[j + 1]);
        }
        if k < s.len() {
            assert(t[k - 1] == s[k]);
        }
        lemma_label_end_unique(t, k - 1);
    }
}

/// The bytes that writing the domain name whose UTF-8 bytes are `s` puts
/// into the buffer, label by label (a length byte, then the label, with a
/// zero byte after the last one), and whether every label was at most 63
/// bytes long. The bytes stop before the first label that is too long.
pub open spec fn qname_plan(s: Seq<u8>) -> (Seq<u8>, bool)
    decreases s.len(),
{
    let k = label_end(s);
    proof {
        lemma_label_end(s);
    }
    if k > 63 {
        (Seq::empty(), false)
    } else if k >= s.len() {
        (seq![k as u8] + s + seq![0u8], true)
    } else {
        let rest = qname_plan(s.skip(k + 1));
        (seq![k as u8] + s.take(k) + rest.0, rest.1)
    }
}

/// Every label of the domain name with UTF-8 bytes `s` has 1 to 63 bytes.
pub open spec fn labels_fit(s: Seq<u8>) -> bool
    decreases s.len(),
{
    let k = label_end(s);
    proof {
        lemma_label_end(s);
    }
    1 <= k <= 63 && (k >= s.len() || labels_fit(s.skip(k + 1)))
}

/// How a domain name whose labels all fit is written: its bytes, with each
/// `.` replaced by the length of the label after it, one byte more in front
/// holding the length of the first label, and a zero byte at the end. For
/// example `www.google.com` is written as 3 `www` 6 `google` 3 `com` 0.
pub proof fn lemma_qname_layout(s: Seq<u8>)
    requires
        labels_fit(s),
    ensures
        qname_plan(s).0.len() == s.len() + 2,
        qname_plan(s).0[0] == label_end(s),
        qname_plan(s).0[s.len() as int + 1] == 0,
        forall|i: int| 0 <= i < s.len() && s[i] != 0x2e ==> #[trigger] qname_plan(s).0[i + 1] == s[i],
        forall|i: int|
            0 <= i < s.len() && s[i] == 0x2e ==> #[trigger] qname_plan(s).0[i + 1] == label_end(
                s.skip(i + 1),
            ),
    decreases s.len(),
{
    let k = label_end(s);
    lemma_label_end(s);
    let plan = qname_plan(s).0;
    if k >= s.len() {
        assert(plan == seq![k as u8] + s + seq![0u8]);
    } else {
        let t = s.skip(k + 1);
        lemma_qname_layout(t);
        lemma_label_end(t);
        let rest = qname_plan(t).0;
        assert(plan == seq![k as u8] + s.take(k) + rest);
        assert forall|i: int| 0 <= i < s.len() && s[i] != 0x2e implies #[trigger] plan[i + 1] == s[i] by {
            if i > k {
                let j = i - k - 1;
                assert(s[i] == t[j]);
                assert(plan[i + 1] == rest[j + 1]);
                assert(qname_plan(t).0[j + 1] == t[j]);
            } else {
                assert(i < k);
                assert(plan[i + 1] == s.take(k)[i]);
            }
        }
        assert forall|i: int| 0 <= i < s.len() && s[i] == 0x2e implies #[trigger] plan[i + 1] == label_end(
            s.skip(i + 1),
        ) by {
            if i == k {
                assert(plan[i + 1] == rest[0]);
            } else {
                assert(i > k);
                let j = i - k - 1;
                assert(s[i] == t[j]);
                assert(plan[i + 1] == rest[j + 1]);
                assert(t.skip(j + 1) =~= s.skip(i + 1));
                assert(qname_plan(t).0[j + 1] == label_end(t.skip(j + 1)));
            }
        }
        assert(plan[s.len() as int + 1] == rest[t.len() as int + 1]);
    }
}

/// The text that reading back the domain name with UTF-8 bytes `s` gives:
/// the text of each label, `.` between them.
pub open spec fn name_text(s: Seq<u8>) -> Seq<char>
    decreases s.len(),
{
    let k = label_end(s);
    proof {
        lemma_label_end(s);
    }
    if k >= s.len() {
        label_text(s)
    } else {
        label_text(s.take(k)) + seq!['.'] + name_text(s.skip(k + 1))
    }
}

/// A name whose labels all fit is written in full, in two bytes more than
/// it has.
pub proof fn lemma_plan_fits(s: Seq<u8>)
    requires
        labels_fit(s),
    ensures
        qname_plan(s).1,
        qname_plan(s).0.len() == s.len() + 2,
    decreases s.len(),
{
    lemma_label_end(s);
    let k = label_end(s);
    if k < s.len() {
        lemma_plan_fits(s.skip(k + 1));
    }
}

/// Scanning the bytes `b` at `q`, where the encoding of a name whose labels
/// all fit lies, reads that name back and ends right after it.
pub(crate) proof fn lemma_scan_plan(b: Seq<u8>, q: int, s: Seq<u8>, first: bool)
    requires
        labels_fit(s),
        0 <= q,
        q + s.len() + 2 <= 512,
        b.len() == 512,
        forall|i: int| 0 <= i < s.len() + 2 ==> b[q + i] == #[trigger] qname_plan(s).0[i],
    ensures
        qname_scan(b, q, 0, false, first) == (QnameScan {
            text: (if first {
                Seq::<char>::empty()
            } else {
                seq!['.']
            }) + name_text(s),
            seek: Some(q + s.len() + 2),
            result: Ok(()),
        }),
    decreases s.len(),
{
    lemma_label_end(s);
    lemma_plan_fits(s);
    let k = label_end(s);
    let plan = qname_plan(s).0;
    assert(b[q] == plan[0]);
    assert(plan[0] == k as u8);
    let label = b.subrange(q + 1, q + 1 + k);
    if k >= s.len() {
        assert(plan =~= seq![k as u8] + s + seq![0u8]);
        assert forall|i: int| 0 <= i < k implies label[i] == s[i] by {
            assert(b[q + 1 + i] == plan[1 + i]);
        }
        assert(label =~= s);
        assert(b[q + 1 + k] == plan[k + 1]);
        assert(qname_scan(b, q + 1 + k, 0, false, false).text =~= Seq::<char>::empty());
    } else {
        let rest = s.skip(k + 1);
        lemma_plan_fits(rest);
        assert(plan =~= seq![k as u8] + s.take(k) + qname_plan(rest).0);
        assert forall|i: int| 0 <= i < k implies label[i] == s.take(k)[i] by {
            assert(b[q + 1 + i] == plan[1 + i]);
        }
        assert(label =~= s.take(k));
        assert forall|i: int| 0 <= i < rest.len() + 2 implies b[q + 1 + k + i]
            == #[trigger] qname_plan(rest).0[i] by {
            assert(b[q + 1 + k + i] == plan[1 + k + i]);
        }
        lemma_scan_plan(b, q + 1 + k, rest, false);
        let dot: Seq<char> = if first {
            Seq::empty()
        } else {
            seq!['.']
        };
        assert(dot + label_text(label) + (seq!['.'] + name_text(rest)) =~= dot + name_text(s));
    }
}

/// What a name read gives back of a name write: once a domain name whose
/// labels all have 1 to 63 bytes has been written where it fits, reading
/// at the same place gives back the text of its labels joined by `.`, and
/// leaves the cursor right after it, where the write left it.
pub proof fn lemma_qname_roundtrip(st: BufState, s: Seq<u8>)
    requires
        buf_wf(st),
        labels_fit(s),
        st.pos + s.len() + 2 <= 512,
    ensures
        qname_write(st, s) == (emit(st, qname_plan(s).0), Ok::<(), DnsError>(())),
        emit(st, qname_plan(s).0).pos == st.pos + s.len() + 2,
        qname_scan(emit(st, qname_plan(s).0).bytes, st.pos, 0, false, true) == (QnameScan {
            text: name_text(s),
            seek: Some(st.pos + s.len() + 2),
            result: Ok(()),
        }),
{
    lemma_plan_fits(s);
    let plan = qname_plan(s).0;
    lemma_read_back(st, plan);
    let w = emit(st, plan);
    assert forall|i: int| 0 <= i < s.len() + 2 implies w.bytes[st.pos + i] == #[trigger] plan[i] by {
        assert(peek(BufState { bytes: w.bytes, pos: st.pos }, plan.len() as int)[i] == w.bytes[st.pos
            + i]);
    }
    lemma_scan_plan(w.bytes, st.pos, s, true);
    assert(Seq::<char>::empty() + name_text(s) =~= name_text(s));
}

/// The text read back of a name of ASCII bytes is its bytes in ASCII
/// lowercase, one character per byte (the `.` between labels stays).
pub proof fn lemma_name_text_ascii(s: Seq<u8>)
    requires
        ascii_bytes(s),
    ensures
        name_text(s) == s.map_values(|x: u8| ascii_lower(x as char)),
    decreases s.len(),
{
    let k = label_end(s);
    lemma_label_end(s);
    if k >= s.len() {
        assert(name_text(s) == label_text(s));
    } else {
        let head = s.take(k);
        let tail = s.skip(k + 1);
        assert(ascii_bytes(head));
        assert(ascii_bytes(tail));
        lemma_name_text_ascii(tail);
        assert(name_text(s) == label_text(head) + seq!['.'] + name_text(tail));
        assert(ascii_lower(s[k] as char) == '.');
        assert(label_text(head) + seq!['.'] + name_text(tail) =~= s.map_values(
            |x: u8| ascii_lower(x as char),
        ));
    }
}

/// A name of lowercase ASCII reads back as itself.
pub proof fn lemma_lowercase_name_text(name: Seq<char>)
    requires
        lowercase_ascii(name),
    ensures
        name_text(encode_utf8(name)) == name,
{
    lemma_lowercase_ascii_bytes(name);
    lemma_name_text_ascii(encode_utf8(name));
}

/// What a name read gives back of a name write, for a name of lowercase
/// ASCII whose labels all have 1 to 63 bytes, written where it fits:
/// reading at the same place gives back the name itself, and leaves the
/// cursor right after it, where the write left it.
pub proof fn lemma_lowercase_name_roundtrip(st: BufState, name: Seq<char>)
    requires
        buf_wf(st),
        lowercase_ascii(name),
        labels_fit(encode_utf8(name)),
        st.pos + encode_utf8(name).len() + 2 <= 512,
    ensures
        ({
            let w = qname_write(st, encode_utf8(name));
            &&& w.1 == Ok::<(), DnsError>(())
            &&& w.0.pos == st.pos + name.len() + 2
            &&& qname_scan(w.0.bytes, st.pos, 0, false, true) == (QnameScan {
                text: name,
                seek: Some(w.0.pos),
                result: Ok(()),
            })
        }),
{
    let s = encode_utf8(name);
    lemma_qname_roundtrip(st, s);
    lemma_lowercase_ascii_bytes(name);
    lemma_lowercase_name_text(name);
}

/// The buffer after writing the domain name with UTF-8 bytes `s` at the
/// cursor, and the outcome: `EndOfBuffer` where the labels up to the first
/// one that is too long do not fit, else `LabelTooLong` where such a label
/// exists, else success.
pub open spec fn qname_write(st: BufState, s: Seq<u8>) -> (BufState, Result<(), DnsError>) {
    let plan = qname_plan(s);
    let after = emit(st, plan.0);
    if !fits(st.pos, plan.0.len() as int) {
        (after, Err(DnsError::EndOfBuffer))
    } else if !plan.1 {
        (after, Err(DnsError::LabelTooLong))
    } else {
        (after, Ok(()))
    }
}

/// What reading a domain name from a buffer produces.
pub struct QnameScan {
    /// The text appended to the output string.
    pub text: Seq<char>,
    /// Where the cursor is moved to, if it is moved: past the name where it
    /// has no pointer, else past the first pointer.
    pub seek: Option<int>,
    /// The outcome.
    pub result: Result<(), DnsError>,
}

/// Reading a domain name from the bytes `b` at position `pos`, after
/// `jumps` pointers have been followed (`jumped` when at least one has) and
/// with `first` when no label has been read yet.
///
/// A length byte with its two high bits set is a pointer: with the next
/// byte it gives a 14-bit position to continue at. At most five pointers
/// are followed. Any other length byte starts a label of that many bytes,
/// which is appended, lowercased, after a `.` when it is not the first; a
/// zero length ends the name.
pub open spec fn qname_scan(b: Seq<u8>, pos: int, jumps: int, jumped: bool, first: bool) -> QnameScan
    decreases 7 - jumps, 512 - pos,
{
    if jumps > 5 {
        QnameScan { text: Seq::empty(), seek: None, result: Err(DnsError::TooManyJumps) }
    } else if pos < 0 || pos >= 512 {
        QnameScan { text: Seq::empty(), seek: None, result: Err(DnsError::PositionOutOfRange) }
    } else {
        let len = b[pos];
        if len >= 0xc0 {
            let seek = if jumped {
                None
            } else {
                Some(pos + 2)
            };
            if pos + 1 >= 512 {
                QnameScan { text: Seq::empty(), seek, result: Err(DnsError::PositionOutOfRange) }
            } else {
                let target = (len - 0xc0) * 256 + b[pos + 1];
                let rest = qname_scan(b, target, jumps + 1, true, first);
                QnameScan { text: rest.text, seek, result: rest.result }
            }
        } else if len == 0 {
            QnameScan {
                text: Seq::empty(),
                seek: if jumped {
                    None
                } else {
                    Some(pos + 1)
                },
                result: Ok(()),
            }
        } else {
            let start = pos + 1;
            let dot: Seq<char> = if first {
                Seq::empty()
            } else {
                seq!['.']
            };
            if start + len >= 512 {
                QnameScan { text: dot, seek: None, result: Err(DnsError::InvalidRange) }
            } else {
                let rest = qname_scan(b, start + len, jumps, jumped, false);
                QnameScan {
                    text: dot + label_text(b.subrange(start, start + len)) + rest.text,
                    seek: rest.seek,
                    result: rest.result,
                }
            }
        }
    }
}

/// Reading a big-endian 16-bit value at the cursor: the buffer after it,
/// and the value where both bytes lie inside the buffer.
pub open spec fn take_u16(st: BufState) -> (BufState, Option<u16>) {
    (advance(st, 2), if fits(st.pos, 2) { Some(be16(peek(st, 2)) as u16) } else { None })
}

/// Reading a big-endian 32-bit value at the cursor: the buffer after it,
/// and the value where its four bytes lie inside the buffer.
pub open spec fn take_u32(st: BufState) -> (BufState, Option<u32>) {
    (advance(st, 4), if fits(st.pos, 4) { Some(be32(peek(st, 4)) as u32) } else { None })
}

/// Reading a domain name at the cursor: the buffer with the cursor where
/// reading leaves it, and the name's text or the error.
pub open spec fn take_name(st: BufState) -> (BufState, Result<Seq<char>, DnsError>) {
    let scan = qname_scan(st.bytes, st.pos, 0, false, true);
    let after = BufState {
        bytes: st.bytes,
        pos: match scan.seek {
            Some(p) => p,
            None => st.pos,
        },
    };
    (
        after,
        match scan.result {
            Ok(_) => Ok(scan.text),
            Err(e) => Err(e),
        },
    )
}

/// After a write that may have failed, writing `data` at the cursor.
pub open spec fn then_emit(prev: (BufState, Result<(), DnsError>), data: Seq<u8>) -> (BufState, Result<(), DnsError>) {
    match prev.1 {
        Err(e) => prev,
        Ok(_) => (
            emit(prev.0, data),
            if fits(prev.0.pos, data.len() as int) {
                Ok(())
            } else {
                Err(DnsError::EndOfBuffer)
            },
        ),
    }
}

/// After a write that may have failed, writing the domain name `name`.
pub open spec fn then_name(prev: (BufState, Result<(), DnsError>), name: Seq<char>) -> (BufState, Result<(), DnsError>) {
    match prev.1 {
        Err(e) => prev,
        Ok(_) => qname_write(prev.0, encode_utf8(name)),
    }
}

} // verus!
