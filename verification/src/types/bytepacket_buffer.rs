use vstd::prelude::*;

use crate::types::error::DnsError;
use crate::types::text::{ascii_bytes, label_text, lemma_ascii_decode, to_lowercase, utf8_lossy};
use crate::types::wire::{
    advance, be16, be32, buf_wf, emit, emit_bytes, fits, lemma_emit_empty, lemma_emit_step,
    lemma_emit_stuck, lemma_emit_then, lemma_label_end_unique, peek, qname_plan, qname_scan,
    qname_write, u16_bytes, u32_bytes, BufState,
};
use vstd::string::{StringExecFns, StringSliceAdditionalSpecFns};

verus! {

/// The outcome of an operation on a packet buffer or on a message in it.
pub type Result<T> = core::result::Result<T, DnsError>;

/// A 512-byte DNS packet with a cursor for sequential reads and writes.
pub struct BytePacketBuffer {
    pub buf: [u8; 512],
    pub pos: usize,
}

impl View for BytePacketBuffer {
    type V = BufState;

    open spec fn view(&self) -> BufState {
        BufState { bytes: self.buf@, pos: self.pos as int }
    }
}

/// `(hi << 8) | lo` is the big-endian number of the bytes `hi`, `lo`.
proof fn lemma_join_u16(hi: u8, lo: u8)
    ensures
        ((hi as u16) << 8u16) | (lo as u16) == (hi as u16) * 256 + (lo as u16),
{
    assert(((hi as u16) << 8u16) | (lo as u16) == (hi as u16) * 256 + (lo as u16)) by (bit_vector);
}

/// The bytes that `write_u16` stores are those of `u16_bytes`.
proof fn lemma_split_u16(v: u16)
    ensures
        (v >> 8u16) as u8 == v / 256,
        (v & 0xffu16) as u8 == v % 256,
{
    assert((v >> 8u16) as u8 == v / 256) by (bit_vector);
    assert((v & 0xffu16) as u8 == v % 256) by (bit_vector);
}

/// The bytes that `write_u32` stores are those of `u32_bytes`.
proof fn lemma_split_u32(v: u32)
    ensures
        ((v >> 24u32) & 0xffu32) as u8 == v / 0x1000000,
        ((v >> 16u32) & 0xffu32) as u8 == (v / 0x10000) % 256,
        ((v >> 8u32) & 0xffu32) as u8 == (v / 256) % 256,
        (v & 0xffu32) as u8 == v % 256,
{
    assert(((v >> 24u32) & 0xffu32) as u8 == v / 0x1000000) by (bit_vector);
    assert(((v >> 16u32) & 0xffu32) as u8 == (v / 0x10000) % 256) by (bit_vector);
    assert(((v >> 8u32) & 0xffu32) as u8 == (v / 256) % 256) by (bit_vector);
    assert((v & 0xffu32) as u8 == v % 256) by (bit_vector);
}

/// The big-endian join of four bytes, as `read_u32` computes it.
proof fn lemma_join_u32(b0: u8, b1: u8, b2: u8, b3: u8)
    ensures
        ((b0 as u32) << 24u32) | ((b1 as u32) << 16u32) | ((b2 as u32) << 8u32) | (b3 as u32)
            == (b0 as u32) * 0x1000000 + (b1 as u32) * 0x10000 + (b2 as u32) * 0x100 + (b3 as u32),
{
    assert(((b0 as u32) << 24u32) | ((b1 as u32) << 16u32) | ((b2 as u32) << 8u32) | (b3 as u32)
        == (b0 as u32) * 0x1000000 + (b1 as u32) * 0x10000 + (b2 as u32) * 0x100 + (b3 as u32))
        by (bit_vector);
}

impl BytePacketBuffer {
    /// A buffer of 512 zero bytes with the cursor at the start.
    pub fn new() -> (b: BytePacketBuffer)
        ensures
            b@.bytes == Seq::new(512, |i: int| 0u8),
            b@.pos == 0,
    {
        let b = BytePacketBuffer { buf: [0; 512], pos: 0 };
        assert(b@.bytes =~= Seq::new(512, |i: int| 0u8));
        b
    }

    /// The cursor.
    pub fn pos(&mut self) -> (p: usize)
        ensures
            p == old(self).pos,
            *final(self) == *old(self),
    {
        return self.pos;
    }

    /// Moves the cursor to `pos`.
    fn seek(&mut self, pos: usize) -> (r: Result<()>)
        ensures
            final(self).buf == old(self).buf,
            final(self).pos == pos,
            r == Ok::<(), DnsError>(()),
    {
        self.pos = pos;
        Ok(())
    }

    /// The cursor.
    fn get_pos(&mut self) -> (p: usize)
        ensures
            p == old(self).pos,
            *final(self) == *old(self),
    {
        self.pos
    }

    /// The `len` bytes starting at `start`; fails with `InvalidRange` unless
    /// the range ends strictly before the end of the buffer.
    pub fn get_range(&mut self, start: usize, len: usize) -> (r: Result<&[u8]>)
        ensures
            *final(self) == *old(self),
            start + len >= 512 ==> r == Err::<&[u8], DnsError>(DnsError::InvalidRange),
            start + len < 512 ==> r is Ok && r->Ok_0@ == old(self).buf@.subrange(
                start as int,
                start + len,
            ),
    {
        if start >= 512 || len >= 512 - start {
            return Err(DnsError::InvalidRange);
        }
        Ok(vstd::slice::slice_subrange(self.buf.as_slice(), start, start + len))
    }

    /// The byte at `pos`; fails with `PositionOutOfRange` when `pos` is
    /// outside the buffer.
    pub fn get(&mut self, pos: usize) -> (r: Result<u8>)
        ensures
            *final(self) == *old(self),
            pos >= 512 ==> r == Err::<u8, DnsError>(DnsError::PositionOutOfRange),
            pos < 512 ==> r == Ok::<u8, DnsError>(old(self).buf@[pos as int]),
    {
        if pos >= 512 {
            return Err(DnsError::PositionOutOfRange);
        }
        Ok(self.buf[pos])
    }

    /// Stores `val` at `pos` without moving the cursor; fails with
    /// `InvalidPosition` when `pos` is outside the buffer.
    pub fn set(&mut self, pos: usize, val: u8) -> (r: Result<()>)
        ensures
            final(self).pos == old(self).pos,
            pos >= 512 ==> r == Err::<(), DnsError>(DnsError::InvalidPosition) && final(self).buf@
                == old(self).buf@,
            pos < 512 ==> r == Ok::<(), DnsError>(()) && final(self).buf@ == old(self).buf@.update(
                pos as int,
                val,
            ),
    {
        if pos >= 512 {
            return Err(DnsError::InvalidPosition);
        }
        self.buf[pos] = val;
        Ok(())
    }

    /// Stores a 16-bit value big-endian at `pos` and `pos + 1` without
    /// moving the cursor; fails with `InvalidPosition`, storing nothing,
    /// unless both positions lie inside the buffer.
    pub fn set_u16(&mut self, pos: usize, val: u16) -> (r: Result<()>)
        ensures
            final(self).pos == old(self).pos,
            pos + 1 >= 512 ==> r == Err::<(), DnsError>(DnsError::InvalidPosition)
                && final(self).buf@ == old(self).buf@,
            pos + 1 < 512 ==> r == Ok::<(), DnsError>(()) && final(self).buf@ == old(
                self,
            ).buf@.update(pos as int, u16_bytes(val)[0]).update(pos + 1, u16_bytes(val)[1]),
    {
        if pos >= 511 {
            return Err(DnsError::InvalidPosition);
        }
        proof {
            lemma_split_u16(val);
        }
        self.set(pos, (val >> 8) as u8)?;
        self.set(pos + 1, (val & 0xFF) as u8)?;
        Ok(())
    }

    /// Reads the byte at the cursor and moves past it; fails with
    /// `EndOfBuffer` at the end of the buffer.
    pub fn read(&mut self) -> (r: Result<u8>)
        ensures
            final(self)@ == advance(old(self)@, 1),
            old(self).pos < 512 ==> r == Ok::<u8, DnsError>(old(self).buf@[old(self).pos as int]),
            old(self).pos >= 512 ==> r == Err::<u8, DnsError>(DnsError::EndOfBuffer),
    {
        if self.pos >= 512 {
            return Err(DnsError::EndOfBuffer);
        }
        let res = self.buf[self.pos];
        self.pos += 1;
        Ok(res)
    }

    /// Moves the cursor forward by `steps`, wherever that leads.
    pub fn step(&mut self, steps: usize) -> (r: Result<()>)
        requires
            old(self).pos + steps <= usize::MAX,
        ensures
            final(self).buf == old(self).buf,
            final(self).pos == old(self).pos + steps,
            r == Ok::<(), DnsError>(()),
    {
        self.pos += steps;
        Ok(())
    }

    /// Reads a big-endian 16-bit value at the cursor and moves past it;
    /// fails with `EndOfBuffer` when its two bytes do not fit, with the
    /// cursor moved as far as the bytes that were read.
    pub fn read_u16(&mut self) -> (r: Result<u16>)
        ensures
            final(self)@ == advance(old(self)@, 2),
            fits(old(self)@.pos, 2) ==> r == Ok::<u16, DnsError>(
                be16(peek(old(self)@, 2)) as u16,
            ),
            !fits(old(self)@.pos, 2) ==> r == Err::<u16, DnsError>(DnsError::EndOfBuffer),
    {
        let hi = self.read()?;
        let lo = self.read()?;
        proof {
            lemma_join_u16(hi, lo);
        }
        let res: u16 = ((hi as u16) << 8) | (lo as u16);
        Ok(res)
    }

    /// Reads a big-endian 32-bit value at the cursor and moves past it;
    /// fails with `EndOfBuffer` when its four bytes do not fit, with the
    /// cursor moved as far as the bytes that were read.
    pub fn read_u32(&mut self) -> (r: Result<u32>)
        ensures
            final(self)@ == advance(old(self)@, 4),
            fits(old(self)@.pos, 4) ==> r == Ok::<u32, DnsError>(
                be32(peek(old(self)@, 4)) as u32,
            ),
            !fits(old(self)@.pos, 4) ==> r == Err::<u32, DnsError>(DnsError::EndOfBuffer),
    {
        let b0 = self.read()?;
        let b1 = self.read()?;
        let b2 = self.read()?;
        let b3 = self.read()?;
        proof {
            lemma_join_u32(b0, b1, b2, b3);
        }
        let res: u32 = ((b0 as u32) << 24) | ((b1 as u32) << 16) | ((b2 as u32) << 8) | (b3 as u32);
        Ok(res)
    }

    /// Writes `val` at the cursor and moves past it; fails with
    /// `EndOfBuffer` at the end of the buffer.
    pub fn write(&mut self, val: u8) -> (r: Result<()>)
        ensures
            final(self)@ == emit(old(self)@, seq![val]),
            old(self).pos < 512 ==> r == Ok::<(), DnsError>(()),
            old(self).pos >= 512 ==> r == Err::<(), DnsError>(DnsError::EndOfBuffer),
    {
        proof {
            reveal(emit_bytes);
        }
        if self.pos >= 512 {
            assert(self@.bytes =~= emit(old(self)@, seq![val]).bytes);
            return Err(DnsError::EndOfBuffer);
        }
        self.buf[self.pos] = val;
        self.pos += 1;
        assert(self@.bytes =~= emit(old(self)@, seq![val]).bytes);
        Ok(())
    }

    /// Writes one byte at the cursor, as `write` does.
    pub fn write_u8(&mut self, val: u8) -> (r: Result<()>)
        ensures
            final(self)@ == emit(old(self)@, seq![val]),
            old(self).pos < 512 ==> r == Ok::<(), DnsError>(()),
            old(self).pos >= 512 ==> r == Err::<(), DnsError>(DnsError::EndOfBuffer),
    {
        self.write(val)?;
        Ok(())
    }

    /// Writes a 16-bit value big-endian at the cursor and moves past it;
    /// fails with `EndOfBuffer` when its two bytes do not fit, having
    /// written those that do.
    pub fn write_u16(&mut self, val: u16) -> (r: Result<()>)
        ensures
            final(self)@ == emit(old(self)@, u16_bytes(val)),
            fits(old(self)@.pos, 2) ==> r == Ok::<(), DnsError>(()),
            !fits(old(self)@.pos, 2) ==> r == Err::<(), DnsError>(DnsError::EndOfBuffer),
    {
        proof {
            lemma_split_u16(val);
            lemma_emit_then(old(self)@, seq![(val / 256) as u8], seq![(val % 256) as u8]);
            assert(seq![(val / 256) as u8] + seq![(val % 256) as u8] =~= u16_bytes(val));
        }
        self.write((val >> 8) as u8)?;
        self.write((val & 0xFF) as u8)?;
        Ok(())
    }

    /// Writes a 32-bit value big-endian at the cursor and moves past it;
    /// fails with `EndOfBuffer` when its four bytes do not fit, having
    /// written those that do.
    pub fn write_u32(&mut self, val: u32) -> (r: Result<()>)
        ensures
            final(self)@ == emit(old(self)@, u32_bytes(val)),
            fits(old(self)@.pos, 4) ==> r == Ok::<(), DnsError>(()),
            !fits(old(self)@.pos, 4) ==> r == Err::<(), DnsError>(DnsError::EndOfBuffer),
    {
        let ghost st0 = old(self)@;
        let ghost b = u32_bytes(val);
        proof {
            lemma_split_u32(val);
            assert(b =~= seq![b[0]] + seq![b[1], b[2], b[3]]);
            lemma_emit_then(st0, seq![b[0]], seq![b[1], b[2], b[3]]);
            lemma_emit_then(emit(st0, seq![b[0]]), seq![b[1]], seq![b[2], b[3]]);
            assert(seq![b[1], b[2], b[3]] =~= seq![b[1]] + seq![b[2], b[3]]);
            lemma_emit_then(st0, seq![b[0], b[1]], seq![b[2], b[3]]);
            assert(seq![b[0]] + seq![b[1]] =~= seq![b[0], b[1]]);
            assert(b =~= seq![b[0], b[1]] + seq![b[2], b[3]]);
            lemma_emit_then(emit(st0, seq![b[0], b[1]]), seq![b[2]], seq![b[3]]);
            assert(seq![b[2], b[3]] =~= seq![b[2]] + seq![b[3]]);
            lemma_emit_then(st0, seq![b[0], b[1], b[2]], seq![b[3]]);
            assert(b =~= seq![b[0], b[1], b[2]] + seq![b[3]]);
            assert(seq![b[0], b[1]] + seq![b[2]] =~= seq![b[0], b[1], b[2]]);
            lemma_emit_then(st0, seq![b[0], b[1]], seq![b[2]]);
            lemma_emit_then(st0, seq![b[0]], seq![b[1]]);
        }
        self.write(((val >> 24) & 0xFF) as u8)?;
        self.write(((val >> 16) & 0xFF) as u8)?;
        self.write(((val >> 8) & 0xFF) as u8)?;
        self.write((val & 0xFF) as u8)?;
        Ok(())
    }

    /// Writes the domain name `qname` at the cursor: each `.`-separated
    /// label as its length byte and its UTF-8 bytes, then a zero byte.
    /// Fails with `LabelTooLong` at the first label of more than 63 bytes,
    /// having written the labels before it, and with `EndOfBuffer` where
    /// the bytes run past the end of the buffer.
    pub fn write_qname(&mut self, qname: &str) -> (r: Result<()>)
        ensures
            (final(self)@, r) == qname_write(old(self)@, qname.spec_bytes()),
    {
        let bytes = qname.as_bytes();
        let n = bytes.len();
        let ghost s = bytes@;
        let ghost st0 = self@;
        let ghost mut done: Seq<u8> = Seq::empty();
        let mut start: usize = 0;
        proof {
            assert(s.skip(0) =~= s);
            lemma_emit_empty(st0);
        }
        loop
            invariant_except_break
                start <= n,
                n == s.len(),
                bytes@ == s,
                s == qname.spec_bytes(),
                buf_wf(st0),
                st0 == old(self)@,
                qname_plan(s).0 == done + qname_plan(s.skip(start as int)).0,
                qname_plan(s).1 == qname_plan(s.skip(start as int)).1,
                fits(st0.pos, done.len() as int),
                self@ == emit(st0, done),
            ensures
                s == qname.spec_bytes(),
                buf_wf(st0),
                st0 == old(self)@,
                qname_plan(s).0 == done + seq![0u8],
                qname_plan(s).1,
                fits(st0.pos, done.len() as int),
                self@ == emit(st0, done),
            decreases n - start,
        {
            let ghost t = s.skip(start as int);
            let mut end = start;
            while end < n && bytes[end] != 0x2e
                invariant
                    start <= end <= n,
                    n == s.len(),
                    bytes@ == s,
                    forall|j: int| start <= j < end ==> s[j] != 0x2e,
                decreases n - end,
            {
                end += 1;
            }
            let label_len = end - start;
            proof {
                assert forall|j: int| 0 <= j < label_len implies t[j] != 0x2e by {
                    assert(t[j] == s[start + j]);
                }
                if end < n {
                    assert(t[label_len as int] == s[end as int]);
                }
                lemma_label_end_unique(t, label_len as int);
            }
            if label_len > 0x3f {
                proof {
                    assert(done + Seq::<u8>::empty() =~= done);
                }
                return Err(DnsError::LabelTooLong);
            }
            let ghost k = label_len as u8;
            let ghost tail: Seq<u8> = if end == n {
                seq![0u8]
            } else {
                qname_plan(s.skip(end + 1)).0
            };
            proof {
                assert(t.take(label_len as int) =~= s.subrange(start as int, end as int));
                if end == n {
                    assert(t =~= s.subrange(start as int, end as int));
                } else {
                    assert(t.skip(label_len + 1) =~= s.skip(end + 1));
                }
                assert(qname_plan(t).0 =~= seq![k] + s.subrange(start as int, end as int) + tail);
                assert(qname_plan(s).0 =~= done.push(k) + s.subrange(start as int, end as int)
                    + tail);
                lemma_emit_step(st0, done, k);
                if !fits(st0.pos, done.push(k).len() as int) {
                    lemma_emit_stuck(st0, done.push(k), s.subrange(start as int, end as int) + tail);
                    assert(done.push(k) + s.subrange(start as int, end as int) + tail
                        =~= done.push(k) + (s.subrange(start as int, end as int) + tail));
                }
            }
            self.write_u8(label_len as u8)?;
            proof {
                done = done.push(k);
                assert(s.subrange(start as int, start as int) =~= Seq::<u8>::empty());
                assert(done + s.subrange(start as int, start as int) =~= done);
            }
            let mut i = start;
            while i < end
                invariant
                    start <= i <= end <= n,
                    n == s.len(),
                    bytes@ == s,
                    buf_wf(st0),
                    st0 == old(self)@,
                    s == qname.spec_bytes(),
                    qname_plan(s).0 == done + s.subrange(start as int, end as int) + tail,
                    fits(st0.pos, (done + s.subrange(start as int, i as int)).len() as int),
                    self@ == emit(st0, done + s.subrange(start as int, i as int)),
                decreases end - i,
            {
                let ghost p = done + s.subrange(start as int, i as int);
                proof {
                    lemma_emit_step(st0, p, s[i as int]);
                    assert(p.push(s[i as int]) =~= done + s.subrange(start as int, i + 1));
                    assert(done + s.subrange(start as int, end as int) + tail =~= p.push(
                        s[i as int],
                    ) + (s.subrange(i + 1, end as int) + tail));
                    if !fits(st0.pos, p.push(s[i as int]).len() as int) {
                        lemma_emit_stuck(st0, p.push(s[i as int]), s.subrange(i + 1, end as int)
                            + tail);
                    }
                }
                self.write_u8(bytes[i])?;
                i += 1;
            }
            proof {
                done = done + s.subrange(start as int, end as int);
            }
            if end == n {
                break;
            }
            proof {
                assert(s.skip(start as int).skip(label_len + 1) =~= s.skip(end + 1));
            }
            start = end + 1;
        }
        proof {
            lemma_emit_step(st0, done, 0u8);
            assert(done + seq![0u8] =~= done.push(0u8));
        }
        self.write_u8(0)?;
        Ok(())
    }

    /// Reads a domain name at the cursor and appends it to `outstr`.
    ///
    /// Labels are appended, decoded leniently and lowercased, with `.`
    /// between them, until a zero length byte. A length byte with its two
    /// high bits set is a pointer: together with the next byte it gives the
    /// position to continue reading at. At most five pointers are followed.
    /// The cursor ends past the name where it holds no pointer, else past the
    /// first pointer.
    ///
    /// Fails with `TooManyJumps` at a sixth pointer, with
    /// `PositionOutOfRange` where a length byte or the second byte of a
    /// pointer lies outside the buffer, and with `InvalidRange` where a label
    /// does not end before the end of the buffer; what was appended and how
    /// far the cursor was moved up to that point stay.
    pub fn read_qname(&mut self, outstr: &mut String) -> (r: Result<()>)
        ensures
            ({
                let scan = qname_scan(old(self).buf@, old(self).pos as int, 0, false, true);
                &&& final(outstr)@ == old(outstr)@ + scan.text
                &&& final(self).buf@ == old(self).buf@
                &&& final(self).pos == (match scan.seek {
                    Some(p) => p,
                    None => old(self).pos as int,
                })
                &&& r == scan.result
            }),
    {
        let ghost b = self.buf@;
        let ghost p0 = self.pos as int;
        let ghost whole = qname_scan(b, p0, 0, false, true);
        let mut pos = self.get_pos();
        let max_jumps: usize = 5;
        let mut jumped: bool = false;
        let mut jump_performed: usize = 0;
        let mut delim = "";
        let ghost mut first = true;
        let ghost mut acc: Seq<char> = Seq::empty();
        proof {
            reveal_strlit("");
            reveal_strlit(".");
        }
        loop
            invariant_except_break
                self.buf@ == b,
                b == old(self).buf@,
                p0 == old(self).pos,
                whole == qname_scan(b, p0, 0, false, true),
                max_jumps == 5,
                jump_performed <= 6,
                jumped == (jump_performed > 0),
                !jumped ==> self.pos == p0,
                jumped ==> whole.seek == Some(self.pos as int),
                delim@ == (if first {
                    Seq::<char>::empty()
                } else {
                    seq!['.']
                }),
                "."@ == seq!['.'],
                whole.text == acc + qname_scan(b, pos as int, jump_performed as int, jumped, first).text,
                whole.result == qname_scan(b, pos as int, jump_performed as int, jumped, first).result,
                !jumped ==> whole.seek == qname_scan(b, pos as int, jump_performed as int, jumped, first).seek,
                outstr@ == old(outstr)@ + acc,
            ensures
                self.buf@ == b,
                b == old(self).buf@,
                p0 == old(self).pos,
                !jumped ==> whole.seek == Some(pos as int),
                jumped ==> whole.seek == Some(self.pos as int),
                whole.text == acc,
                whole.result == Ok::<(), DnsError>(()),
                outstr@ == old(outstr)@ + acc,
            decreases 7 - jump_performed, 512 - pos,
        {
            if jump_performed > max_jumps {
                proof {
                    assert(acc + Seq::<char>::empty() =~= acc);
                }
                return Err(DnsError::TooManyJumps);
            }
            let len = self.get(pos)?;
            proof {
                assert(((len & 0xc0u8) == 0xc0u8) == (len >= 0xc0u8)) by (bit_vector);
            }
            if (len & 0xC0) == 0xC0 {
                if !jumped {
                    self.seek(pos + 2)?;
                }
                let b2 = self.get(pos + 1)? as u16;
                proof {
                    assert(len >= 0xc0u8 ==> ((len as u16 ^ 0xc0u16) << 8u16) | b2 == (len as u16
                        - 0xc0u16) * 256 + b2) by (bit_vector)
                        requires
                            b2 < 256,
                    ;
                }
                let offset = ((len as u16 ^ 0xC0) << 8) | b2;
                pos = offset as usize;
                jumped = true;
                jump_performed += 1;
                continue ;
            } else {
                let ghost here = pos;
                pos += 1;
                if len == 0 {
                    proof {
                        assert(acc + Seq::<char>::empty() =~= acc);
                    }
                    break ;
                }
                outstr.append(delim);
                let ghost dot = delim@;
                let str = self.get_range(pos, len as usize)?;
                let text = utf8_lossy(str);
                let lower = to_lowercase(text.as_str());
                outstr.append(lower.as_str());
                proof {
                    let lb = b.subrange(pos as int, pos + len);
                    assert(str@ =~= lb);
                    if ascii_bytes(lb) {
                        lemma_ascii_decode(lb);
                        assert(lower@ =~= label_text(lb));
                    }
                    let rest = qname_scan(b, pos + len, jump_performed as int, jumped, false);
                    assert(whole.text =~= (acc + dot + label_text(b.subrange(pos as int, pos + len)))
                        + rest.text);
                    acc = acc + dot + label_text(b.subrange(pos as int, pos + len));
                    first = false;
                }
                delim = ".";
                pos += len as usize;
            }
        }
        if !jumped {
            self.seek(pos)?;
        }
        Ok(())
    }
}

impl Default for BytePacketBuffer {
    fn default() -> (b: Self)
        ensures
            b@.bytes == Seq::new(512, |i: int| 0u8),
            b@.pos == 0,
    {
        Self::new()
    }
}

} // verus!
