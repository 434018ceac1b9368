//! Records: the requests sent over the wire and the entries of a log file.
//!
//! Every record is a 12-byte header followed by a body. The header holds the key's byte length
//! as a big-endian `u32` and the value's byte length as a big-endian `u64`. The body is the key,
//! then, for a `Put`, the value. A `Get` and an `Rm` carry no value; their value length is one of
//! two reserved sentinels instead.

use vstd::prelude::*;
use vstd::utf8::*;

use crate::bytes::{be_u32, be_u64, push_u32_be, push_u64_be, read_u32_be, read_u64_be};
use crate::error::Error;
use crate::utf8::{decode_str, push_str_bytes};

verus! {

/// Bytes of the header that hold the key length.
pub const HEADER_KEY_BYTES: usize = 4;

/// Bytes of the header that hold the value length.
pub const HEADER_VALUE_BYTES: usize = 8;

/// Bytes of the whole header.
pub const HEADER_BYTES: usize = 12;

/// The value length that marks a `Get`.
pub const GET_VALUE_LEN: u64 = 0xffff_ffff_ffff_ffff;

/// The value length that marks an `Rm`.
pub const RM_VALUE_LEN: u64 = 0xffff_ffff_ffff_fffe;

/// An action on a key.
#[derive(Debug, Clone, PartialEq, Eq)]
pub enum Cmd {
    /// Set a key to a value.
    Put(String, String),
    /// Get the value of a key, if there is one.
    Get(String),
    /// Remove a key.
    Rm(String),
}

/// What a [`Cmd`] means: its variant, key and value as character sequences.
pub enum Record {
    Put(Seq<char>, Seq<char>),
    Get(Seq<char>),
    Rm(Seq<char>),
}

impl View for Cmd {
    type V = Record;

    open spec fn view(&self) -> Record {
        match self {
            Cmd::Put(k, v) => Record::Put(k@, v@),
            Cmd::Get(k) => Record::Get(k@),
            Cmd::Rm(k) => Record::Rm(k@),
        }
    }
}

impl Record {
    pub open spec fn key(self) -> Seq<char> {
        match self {
            Record::Put(k, _) => k,
            Record::Get(k) => k,
            Record::Rm(k) => k,
        }
    }

    /// The length field of the header: the value's byte length, or a sentinel.
    pub open spec fn value_len_field(self) -> u64 {
        match self {
            Record::Put(_, v) => encode_utf8(v).len() as u64,
            Record::Get(_) => GET_VALUE_LEN,
            Record::Rm(_) => RM_VALUE_LEN,
        }
    }

    /// The bytes of the body that follow the key.
    pub open spec fn value_bytes(self) -> Seq<u8> {
        match self {
            Record::Put(_, v) => encode_utf8(v),
            _ => Seq::empty(),
        }
    }

    /// The record fits the header's fields: the key's byte length fits a `u32`, a value's byte
    /// length stays below the two sentinels, and the whole record's length fits a `usize`.
    pub open spec fn encodable(self) -> bool {
        &&& encode_utf8(self.key()).len() <= u32::MAX
        &&& encode_utf8(self.key()).len() + self.value_bytes().len() + HEADER_BYTES <= usize::MAX
        &&& self.value_bytes().len() < RM_VALUE_LEN
    }
}

/// The bytes of a record on the wire and on disk.
pub open spec fn encode_record(r: Record) -> Seq<u8> {
    be_u32(encode_utf8(r.key()).len() as u32) + be_u64(r.value_len_field()) + encode_utf8(r.key())
        + r.value_bytes()
}

/// The number of body bytes that a header announces.
pub open spec fn body_len_of(key_len: u32, value_len: u64) -> int {
    if value_len == GET_VALUE_LEN || value_len == RM_VALUE_LEN {
        key_len as int
    } else {
        key_len as int + value_len as int
    }
}

/// What a body decodes to, given the lengths from its header.
pub open spec fn decode_body(key_len: u32, value_len: u64, b: Seq<u8>) -> Result<Record, Error> {
    let kb = b.subrange(0, key_len as int);
    let vb = b.subrange(key_len as int, key_len as int + value_len as int);
    if b.len() < key_len {
        Err(Error::MalformedRecord)
    } else if !valid_utf8(kb) {
        Err(Error::InvalidUtf8)
    } else if value_len == GET_VALUE_LEN {
        Ok(Record::Get(decode_utf8(kb)))
    } else if value_len == RM_VALUE_LEN {
        Ok(Record::Rm(decode_utf8(kb)))
    } else if b.len() - key_len < value_len {
        Err(Error::MalformedRecord)
    } else if !valid_utf8(vb) {
        Err(Error::InvalidUtf8)
    } else {
        Ok(Record::Put(decode_utf8(kb), decode_utf8(vb)))
    }
}

impl Cmd {
    pub open spec fn encodable(&self) -> bool {
        self@.encodable()
    }

    /// The key that the command acts on.
    pub fn key(&self) -> (r: &String)
        ensures
            r@ == self@.key(),
    {
        match self {
            Cmd::Put(k, _) => k,
            Cmd::Get(k) => k,
            Cmd::Rm(k) => k,
        }
    }

    /// Appends the command's bytes to `w` and returns how many there were.
    pub fn write(&self, w: &mut Vec<u8>) -> (r: usize)
        requires
            self.encodable(),
        ensures
            final(w)@ == old(w)@ + encode_record(self@),
            r == encode_record(self@).len(),
    {
        let ghost start = w@;
        match self {
            Cmd::Put(key, value) => {
                let kl = key.as_str().len();
                let vl = value.as_str().len();
                push_u32_be(w, kl as u32);
                push_u64_be(w, vl as u64);
                push_str_bytes(w, key.as_str());
                push_str_bytes(w, value.as_str());
                assert(w@ =~= start + encode_record(self@));
                HEADER_BYTES + kl + vl
            },
            Cmd::Get(key) => {
                let kl = key.as_str().len();
                push_u32_be(w, kl as u32);
                push_u64_be(w, GET_VALUE_LEN);
                push_str_bytes(w, key.as_str());
                assert(w@ =~= start + encode_record(self@));
                HEADER_BYTES + kl
            },
            Cmd::Rm(key) => {
                let kl = key.as_str().len();
                push_u32_be(w, kl as u32);
                push_u64_be(w, RM_VALUE_LEN);
                push_str_bytes(w, key.as_str());
                assert(w@ =~= start + encode_record(self@));
                HEADER_BYTES + kl
            },
        }
    }

    /// Reads the key length and the value length out of a header.
    pub fn parse_header(header: &[u8]) -> (r: (u32, u64))
        requires
            header@.len() == HEADER_BYTES,
        ensures
            header@ == be_u32(r.0) + be_u64(r.1),
    {
        let key_len = read_u32_be(header);
        let value_len = read_u64_be(header, HEADER_KEY_BYTES);
        assert(header@ =~= header@.subrange(0, 4) + header@.subrange(4, 12));
        (key_len, value_len)
    }

    /// Decodes a body, given the lengths from its header. Bytes past the record are ignored.
    pub fn parse_body(key_len: u32, value_len: u64, bytes: &[u8]) -> (r: Result<Cmd, Error>)
        ensures
            match r {
                Ok(c) => decode_body(key_len, value_len, bytes@) == Ok::<Record, Error>(c@),
                Err(e) => decode_body(key_len, value_len, bytes@) == Err::<Record, Error>(e),
            },
    {
        let kl = key_len as usize;
        if bytes.len() < kl {
            return Err(Error::MalformedRecord);
        }
        let key = match decode_str(vstd::slice::slice_subrange(bytes, 0, kl)) {
            Some(k) => k,
            None => {
                return Err(Error::InvalidUtf8);
            },
        };
        if value_len == GET_VALUE_LEN {
            return Ok(Cmd::Get(key));
        }
        if value_len == RM_VALUE_LEN {
            return Ok(Cmd::Rm(key));
        }
        if ((bytes.len() - kl) as u64) < value_len {
            return Err(Error::MalformedRecord);
        }
        let vl = value_len as usize;
        match decode_str(vstd::slice::slice_subrange(bytes, kl, kl + vl)) {
            Some(value) => Ok(Cmd::Put(key, value)),
            None => Err(Error::InvalidUtf8),
        }
    }
}

} // verus!
