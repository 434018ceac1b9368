//! Reading whole records out of a byte source that may hold several in a row.
//!
//! A source is a slice of bytes: a request read off a connection, or the contents of a log file.
//! Each read takes exactly one record and never looks past it, so that consecutive reads walk a
//! file record by record.

use vstd::prelude::*;
use vstd::utf8::*;

use crate::bytes::{
    be_u32,
    be_u64,
    lemma_u32_round_trip,
    lemma_u64_round_trip,
    u32_from_be,
    u64_from_be,
};
use crate::cmd::{
    body_len_of,
    decode_body,
    encode_record,
    Cmd,
    Record,
    GET_VALUE_LEN,
    HEADER_BYTES,
    RM_VALUE_LEN,
};
use crate::error::Error;

verus! {

/// The key length that the header at the start of `src` announces.
pub open spec fn header_key_len(src: Seq<u8>) -> u32 {
    u32_from_be(src.subrange(0, 4))
}

/// The value length that the header at the start of `src` announces.
pub open spec fn header_value_len(src: Seq<u8>) -> u64 {
    u64_from_be(src.subrange(4, 12))
}

/// The length of the record that starts `src`, as its header announces it.
pub open spec fn frame_len(src: Seq<u8>) -> int {
    HEADER_BYTES + body_len_of(header_key_len(src), header_value_len(src))
}

/// What reading one record from the start of `src` gives: `None` for an empty source, else the
/// record and the number of bytes it took.
pub open spec fn decode_frame(src: Seq<u8>) -> Result<Option<(Record, nat)>, Error> {
    if src.len() == 0 {
        Ok(None)
    } else if src.len() < HEADER_BYTES || src.len() < frame_len(src) {
        Err(Error::MalformedRecord)
    } else {
        match decode_body(
            header_key_len(src),
            header_value_len(src),
            src.subrange(HEADER_BYTES as int, frame_len(src)),
        ) {
            Ok(r) => Ok(Some((r, frame_len(src) as nat))),
            Err(e) => Err(e),
        }
    }
}

/// A record and the number of bytes it took.
#[derive(Debug, PartialEq, Eq)]
pub struct ReadResult {
    cmd: Cmd,
    bytes_read: usize,
}

impl View for ReadResult {
    type V = (Record, nat);

    closed spec fn view(&self) -> (Record, nat) {
        (self.cmd@, self.bytes_read as nat)
    }
}

impl ReadResult {
    /// How many bytes the record took.
    pub fn bytes_read(&self) -> (r: usize)
        ensures
            r == self@.1,
    {
        self.bytes_read
    }

    /// The record.
    pub fn into_cmd(self) -> (r: Cmd)
        ensures
            r@ == self@.0,
    {
        self.cmd
    }
}

/// The number of body bytes that a header announces, where the whole record's length fits a
/// `usize`.
pub fn body_len(key_len: u32, value_len: u64) -> (r: Option<usize>)
    ensures
        r matches Some(n) ==> n == body_len_of(key_len, value_len),
        r is None <==> HEADER_BYTES + body_len_of(key_len, value_len) > usize::MAX,
{
    let body: u128 = if value_len == GET_VALUE_LEN || value_len == RM_VALUE_LEN {
        key_len as u128
    } else {
        key_len as u128 + value_len as u128
    };
    if body + HEADER_BYTES as u128 > usize::MAX as u128 {
        None
    } else {
        Some(body as usize)
    }
}

/// Copies one record's bytes out of a source, advancing past them.
pub struct CmdReader<'a> {
    reader: &'a [u8],
}

impl<'a> CmdReader<'a> {
    /// The bytes not read yet.
    pub closed spec fn remaining(&self) -> Seq<u8> {
        self.reader@
    }

    pub fn new(reader: &'a [u8]) -> (r: Self)
        ensures
            r.remaining() == reader@,
    {
        Self { reader }
    }

    /// Copies the next record's header and body to the front of `buf`, growing it where it is too
    /// short, and returns their length; 0 where nothing is left. Fails where the source ends
    /// inside the record.
    pub fn read_cmd_bytes(&mut self, buf: &mut Vec<u8>) -> (r: Result<usize, Error>)
        ensures
            ({
                let src = old(self).remaining();
                if src.len() == 0 {
                    r == Ok::<usize, Error>(0) && final(self).remaining() == src && final(buf)@
                        == old(buf)@
                } else if src.len() < HEADER_BYTES || src.len() < frame_len(src) {
                    r == Err::<usize, Error>(Error::MalformedRecord) && final(buf)@ == old(buf)@
                } else {
                    &&& r == Ok::<usize, Error>(frame_len(src) as usize)
                    &&& final(buf)@.len() == (if old(buf)@.len() >= frame_len(src) {
                        old(buf)@.len() as int
                    } else {
                        frame_len(src)
                    })
                    &&& final(buf)@.subrange(0, frame_len(src)) == src.subrange(0, frame_len(src))
                    &&& final(self).remaining() == src.subrange(frame_len(src), src.len() as int)
                }
            }),
    {
        let src = self.reader;
        if src.len() == 0 {
            return Ok(0);
        }
        if src.len() < HEADER_BYTES {
            return Err(Error::MalformedRecord);
        }
        let header = vstd::slice::slice_subrange(src, 0, HEADER_BYTES);
        let (key_len, value_len) = Cmd::parse_header(header);
        proof {
            assert(header@.subrange(0, 4) =~= src@.subrange(0, 4));
            assert(header@.subrange(4, 12) =~= src@.subrange(4, 12));
            assert(header@.subrange(0, 4) =~= (be_u32(key_len) + be_u64(value_len)).subrange(0, 4));
            assert(header@.subrange(4, 12) =~= (be_u32(key_len) + be_u64(value_len)).subrange(4, 12));
            lemma_u32_round_trip(key_len);
            lemma_u64_round_trip(value_len);
            assert(src@.subrange(0, 4) =~= be_u32(key_len));
            assert(src@.subrange(4, 12) =~= be_u64(value_len));
        }
        let avail = src.len() - HEADER_BYTES;
        let total = match body_len(key_len, value_len) {
            Some(n) => {
                if n > avail {
                    return Err(Error::MalformedRecord);
                }
                HEADER_BYTES + n
            },
            None => {
                return Err(Error::MalformedRecord);
            },
        };
        let ghost old_len = buf@.len();
        while buf.len() < total
            invariant
                total <= src@.len(),
                buf@.len() >= old_len,
                old_len >= total ==> buf@.len() == old_len,
                old_len < total ==> buf@.len() <= total,
            decreases total - buf@.len(),
        {
            buf.push(0);
        }
        let ghost before = buf@;
        let mut i: usize = 0;
        while i < total
            invariant
                total <= src@.len(),
                buf@.len() == before.len(),
                before.len() >= total,
                i <= total,
                forall|j: int| 0 <= j < i ==> buf@[j] == src@[j],
            decreases total - i,
        {
            buf.set(i, src[i]);
            i = i + 1;
        }
        assert(buf@.subrange(0, total as int) =~= src@.subrange(0, total as int));
        self.reader = vstd::slice::slice_subrange(src, total, src.len());
        Ok(total)
    }
}

/// Reads records out of byte sources, reusing one buffer for all of them.
pub struct Reader {
    buf: Vec<u8>,
}

impl Reader {
    pub fn new() -> Self {
        Reader { buf: Vec::new() }
    }

    /// Reads the record at the start of `src`. Gives `Ok(None)` for an empty source, and an
    /// error where the source ends inside the record or the record does not decode.
    pub fn read_cmd(&mut self, src: &[u8]) -> (r: Result<Option<ReadResult>, Error>)
        ensures
            match r {
                Ok(None) => decode_frame(src@) == Ok::<Option<(Record, nat)>, Error>(None),
                Ok(Some(rr)) => decode_frame(src@) == Ok::<Option<(Record, nat)>, Error>(
                    Some(rr@),
                ),
                Err(e) => decode_frame(src@) == Err::<Option<(Record, nat)>, Error>(e),
            },
    {
        let src_len = src.len();
        let mut cmd_reader = CmdReader::new(src);
        let bytes_read = match cmd_reader.read_cmd_bytes(&mut self.buf) {
            Ok(n) => n,
            Err(e) => {
                return Err(e);
            },
        };
        if bytes_read == 0 {
            return Ok(None);
        }
        assert(src@.len() >= HEADER_BYTES && src@.len() >= frame_len(src@));
        let header = vstd::slice::slice_subrange(self.buf.as_slice(), 0, HEADER_BYTES);
        let (key_len, value_len) = Cmd::parse_header(header);
        proof {
            assert(header@ =~= src@.subrange(0, 12));
            assert(header@.subrange(0, 4) =~= (be_u32(key_len) + be_u64(value_len)).subrange(0, 4));
            assert(header@.subrange(4, 12) =~= (be_u32(key_len) + be_u64(value_len)).subrange(4, 12));
            assert(src@.subrange(0, 12).subrange(0, 4) =~= src@.subrange(0, 4));
            assert(src@.subrange(0, 12).subrange(4, 12) =~= src@.subrange(4, 12));
            lemma_u32_round_trip(key_len);
            lemma_u64_round_trip(value_len);
            assert(src@.subrange(0, 4) =~= be_u32(key_len));
            assert(src@.subrange(4, 12) =~= be_u64(value_len));
        }
        let body = vstd::slice::slice_subrange(self.buf.as_slice(), HEADER_BYTES, bytes_read);
        proof {
            assert forall|j: int| 0 <= j < bytes_read implies self.buf@[j] == src@[j] by {
                assert(self.buf@.subrange(0, bytes_read as int)[j] == src@.subrange(
                    0,
                    bytes_read as int,
                )[j]);
            }
            assert(body@ =~= src@.subrange(HEADER_BYTES as int, bytes_read as int));
        }
        match Cmd::parse_body(key_len, value_len, body) {
            Ok(cmd) => Ok(Some(ReadResult { cmd, bytes_read })),
            Err(e) => Err(e),
        }
    }
}

/// Where the run of whole records at the start of `b` ends.
pub open spec fn whole_records_len(b: Seq<u8>) -> nat
    decreases b.len(),
{
    match decode_frame(b) {
        Ok(Some((_, n))) => if 0 < n <= b.len() {
            n + whole_records_len(b.subrange(n as int, b.len() as int))
        } else {
            0
        },
        _ => 0,
    }
}

/// Where the run of whole records at the start of `b` ends: past it, `b` is empty or holds
/// something that is not a record.
pub fn whole_records_prefix(b: &[u8]) -> (r: usize)
    ensures
        r == whole_records_len(b@),
        r <= b@.len(),
{
    let mut reader = Reader::new();
    let mut pos: usize = 0;
    assert(b@.subrange(0, b@.len() as int) =~= b@);
    while pos < b.len()
        invariant
            pos <= b@.len(),
            pos + whole_records_len(b@.subrange(pos as int, b@.len() as int)) == whole_records_len(
                b@,
            ),
        decreases b@.len() - pos,
    {
        let rest = vstd::slice::slice_subrange(b, pos, b.len());
        match reader.read_cmd(rest) {
            Ok(Some(rr)) => {
                let n = rr.bytes_read();
                proof {
                    lemma_decoded_is_encoded(rest@);
                    assert(rest@.subrange(n as int, rest@.len() as int) =~= b@.subrange(
                        pos + n,
                        b@.len() as int,
                    ));
                }
                pos = pos + n;
            },
            _ => {
                return pos;
            },
        }
    }
    proof {
        assert(decode_frame(b@.subrange(pos as int, b@.len() as int)) == Ok::<
            Option<(Record, nat)>,
            Error,
        >(None));
    }
    pos
}

/// `b` ends in a record cut short: after its whole records comes the start of one that the
/// bytes do not finish.
pub open spec fn torn_tail(b: Seq<u8>) -> bool {
    whole_records_len(b) < b.len() && decode_frame(
        b.subrange(whole_records_len(b) as int, b.len() as int),
    ) == Err::<Option<(Record, nat)>, Error>(Error::MalformedRecord)
}

/// The bytes of an active file to keep: all of them, unless the file ends in a record cut
/// short, which is dropped.
pub open spec fn kept_len(b: Seq<u8>) -> nat {
    if torn_tail(b) {
        whole_records_len(b)
    } else {
        b.len()
    }
}

/// How many bytes of an active file to keep: a record cut short at its end is dropped.
pub fn active_prefix_len(b: &[u8]) -> (r: usize)
    ensures
        r == kept_len(b@),
{
    let cut = whole_records_prefix(b);
    if cut < b.len() {
        let mut reader = Reader::new();
        match reader.read_cmd(vstd::slice::slice_subrange(b, cut, b.len())) {
            Err(Error::MalformedRecord) => cut,
            _ => b.len(),
        }
    } else {
        b.len()
    }
}

/// Decoding what encoding wrote gives back the same record, and takes exactly its bytes: for
/// every record whose lengths fit the header, and whatever bytes follow it.
pub proof fn lemma_round_trip(r: Record, rest: Seq<u8>)
    requires
        r.encodable(),
    ensures
        decode_frame(encode_record(r) + rest) == Ok::<Option<(Record, nat)>, Error>(
            Some((r, encode_record(r).len())),
        ),
{
    let kb = encode_utf8(r.key());
    let kl = kb.len() as u32;
    let vl = r.value_len_field();
    let src = encode_record(r) + rest;
    encode_utf8_valid_utf8(r.key());
    encode_utf8_decode_utf8(r.key());
    lemma_u32_round_trip(kl);
    lemma_u64_round_trip(vl);
    assert(src.subrange(0, 4) =~= be_u32(kl));
    assert(src.subrange(4, 12) =~= be_u64(vl));
    assert(body_len_of(kl, vl) == kb.len() + r.value_bytes().len());
    let body = src.subrange(HEADER_BYTES as int, frame_len(src));
    assert(body =~= kb + r.value_bytes());
    assert(body.subrange(0, kl as int) =~= kb);
    match r {
        Record::Put(k, v) => {
            encode_utf8_valid_utf8(v);
            encode_utf8_decode_utf8(v);
            assert(body.subrange(kl as int, kl as int + vl as int) =~= encode_utf8(v));
        },
        _ => {},
    }
}

/// Where a record decodes from the start of `src`, the bytes it took are its encoding.
pub proof fn lemma_decoded_is_encoded(src: Seq<u8>)
    requires
        decode_frame(src) matches Ok(Some(_)),
        src.len() <= usize::MAX,
    ensures
        decode_frame(src) matches Ok(Some((r, n))) && n <= src.len() && src.subrange(0, n as int)
            == encode_record(r) && r.encodable(),
{
    let kl = header_key_len(src);
    let vl = header_value_len(src);
    let n = frame_len(src);
    let body = src.subrange(HEADER_BYTES as int, n);
    let kb = body.subrange(0, kl as int);
    decode_utf8_encode_utf8(kb);
    let h4 = src.subrange(0, 4);
    let h8 = src.subrange(4, 12);
    assert(be_u32(u32_from_be(h4)) =~= h4) by {
        let (b0, b1, b2, b3) = (h4[0], h4[1], h4[2], h4[3]);
        let x = u32_from_be(h4);
        assert(((x >> 24u32) as u8) == b0 && ((x >> 16u32) as u8) == b1 && ((x >> 8u32) as u8)
            == b2 && (x as u8) == b3) by (bit_vector)
            requires
                x == ((b0 as u32) << 24u32) | ((b1 as u32) << 16u32) | ((b2 as u32) << 8u32) | (
                b3 as u32),
        ;
    }
    assert(be_u64(u64_from_be(h8)) =~= h8) by {
        let (b0, b1, b2, b3, b4, b5, b6, b7) = (h8[0], h8[1], h8[2], h8[3], h8[4], h8[5], h8[6], h8[7]);
        let x = u64_from_be(h8);
        assert(((x >> 56u64) as u8) == b0 && ((x >> 48u64) as u8) == b1 && ((x >> 40u64) as u8)
            == b2 && ((x >> 32u64) as u8) == b3 && ((x >> 24u64) as u8) == b4 && ((x >> 16u64) as u8)
            == b5 && ((x >> 8u64) as u8) == b6 && (x as u8) == b7) by (bit_vector)
            requires
                x == ((b0 as u64) << 56u64) | ((b1 as u64) << 48u64) | ((b2 as u64) << 40u64) | ((
                b3 as u64) << 32u64) | ((b4 as u64) << 24u64) | ((b5 as u64) << 16u64) | ((
                b6 as u64) << 8u64) | (b7 as u64),
        ;
    }
    if vl != GET_VALUE_LEN && vl != RM_VALUE_LEN {
        let vb = body.subrange(kl as int, kl as int + vl as int);
        decode_utf8_encode_utf8(vb);
        assert(body =~= kb + vb);
    } else {
        assert(body =~= kb);
    }
    assert(src.subrange(0, n) =~= h4 + h8 + body);
}

} // verus!
