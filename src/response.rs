//! Responses to a [`Cmd`](crate::cmd::Cmd), and how they travel on the wire.
//!
//! A response is one tag byte, followed for a found value or an error by its UTF-8 text:
//! `s` for a stored value, `r` for a removed key, `g` and the value for a found key, `n` for a
//! key that has no value, and `e` and a message for an error.

use vstd::prelude::*;
use vstd::utf8::*;

use crate::error::{error_text, Error};
use crate::utf8::{decode_str, push_str_bytes};

verus! {

/// `s`: the value was stored.
pub const SUCCESSFUL_SET_BYTE: u8 = 0x73;

/// `r`: the key was removed.
pub const SUCCESSFUL_RM_BYTE: u8 = 0x72;

/// `g`: the value follows.
pub const SUCCESSFUL_GET_BYTE: u8 = 0x67;

/// `n`: the key has no value.
pub const NOT_FOUND_BYTE: u8 = 0x6e;

/// `e`: an error message follows.
pub const ERROR_BYTE: u8 = 0x65;

/// A response to a command.
#[derive(Debug, Clone, PartialEq, Eq)]
pub enum Response {
    /// The value was stored.
    SuccessfulSet,
    /// The key was removed.
    SuccessfulRm,
    /// The value of the requested key.
    SuccessfulGet(String),
    /// The key has no value.
    KeyNotFound,
    /// The request failed; the text says why.
    Error(String),
}

/// What a [`Response`] means, with its texts as character sequences.
pub enum Reply {
    SuccessfulSet,
    SuccessfulRm,
    SuccessfulGet(Seq<char>),
    KeyNotFound,
    Error(Seq<char>),
}

impl View for Response {
    type V = Reply;

    open spec fn view(&self) -> Reply {
        match self {
            Response::SuccessfulSet => Reply::SuccessfulSet,
            Response::SuccessfulRm => Reply::SuccessfulRm,
            Response::SuccessfulGet(v) => Reply::SuccessfulGet(v@),
            Response::KeyNotFound => Reply::KeyNotFound,
            Response::Error(e) => Reply::Error(e@),
        }
    }
}

/// The bytes of a response on the wire.
pub open spec fn encode_reply(r: Reply) -> Seq<u8> {
    match r {
        Reply::SuccessfulSet => seq![SUCCESSFUL_SET_BYTE],
        Reply::SuccessfulRm => seq![SUCCESSFUL_RM_BYTE],
        Reply::SuccessfulGet(v) => seq![SUCCESSFUL_GET_BYTE] + encode_utf8(v),
        Reply::KeyNotFound => seq![NOT_FOUND_BYTE],
        Reply::Error(e) => seq![ERROR_BYTE] + encode_utf8(e),
    }
}

/// What a response's bytes decode to. Bytes that are not UTF-8, and an empty or unknown tag,
/// decode to an error that says so; a tag without a payload ignores what follows it.
pub open spec fn decode_reply(b: Seq<u8>) -> Reply {
    if !valid_utf8(b) {
        Reply::Error("Invalid utf8"@)
    } else if b.len() == 0 {
        Reply::Error("Invalid start byte"@)
    } else if b[0] == SUCCESSFUL_SET_BYTE {
        Reply::SuccessfulSet
    } else if b[0] == SUCCESSFUL_RM_BYTE {
        Reply::SuccessfulRm
    } else if b[0] == SUCCESSFUL_GET_BYTE {
        Reply::SuccessfulGet(decode_utf8(b.drop_first()))
    } else if b[0] == NOT_FOUND_BYTE {
        Reply::KeyNotFound
    } else if b[0] == ERROR_BYTE {
        Reply::Error(decode_utf8(b.drop_first()))
    } else {
        Reply::Error("Invalid start byte"@)
    }
}

/// Well-formed UTF-8 that starts with an ASCII byte stays well-formed without it.
proof fn lemma_drop_ascii_head(b: Seq<u8>)
    requires
        valid_utf8(b),
        b.len() > 0,
        b[0] < 0x80,
    ensures
        valid_utf8(b.drop_first()),
{
    assert(length_of_first_scalar(b) == 1);
    assert(pop_first_scalar(b) =~= b.drop_first());
}

impl Response {
    /// Decodes a response from its bytes.
    pub fn from_bytes(bytes: &[u8]) -> (r: Response)
        ensures
            r@ == decode_reply(bytes@),
    {
        if decode_str(bytes).is_none() {
            return Response::Error("Invalid utf8".to_owned());
        }
        if bytes.len() == 0 {
            return Response::Error("Invalid start byte".to_owned());
        }
        let tag = bytes[0];
        if tag == SUCCESSFUL_SET_BYTE {
            Response::SuccessfulSet
        } else if tag == SUCCESSFUL_RM_BYTE {
            Response::SuccessfulRm
        } else if tag == NOT_FOUND_BYTE {
            Response::KeyNotFound
        } else if tag == SUCCESSFUL_GET_BYTE || tag == ERROR_BYTE {
            let payload = vstd::slice::slice_subrange(bytes, 1, bytes.len());
            proof {
                lemma_drop_ascii_head(bytes@);
                assert(payload@ =~= bytes@.drop_first());
            }
            match decode_str(payload) {
                Some(text) => {
                    if tag == SUCCESSFUL_GET_BYTE {
                        Response::SuccessfulGet(text)
                    } else {
                        Response::Error(text)
                    }
                },
                None => Response::Error("Invalid utf8".to_owned()),
            }
        } else {
            Response::Error("Invalid start byte".to_owned())
        }
    }

    /// Appends the response's bytes to `w`.
    pub fn write(&self, w: &mut Vec<u8>)
        ensures
            final(w)@ == old(w)@ + encode_reply(self@),
    {
        let ghost start = w@;
        match self {
            Response::SuccessfulSet => w.push(SUCCESSFUL_SET_BYTE),
            Response::SuccessfulRm => w.push(SUCCESSFUL_RM_BYTE),
            Response::SuccessfulGet(v) => {
                w.push(SUCCESSFUL_GET_BYTE);
                push_str_bytes(w, v.as_str());
            },
            Response::KeyNotFound => w.push(NOT_FOUND_BYTE),
            Response::Error(e) => {
                w.push(ERROR_BYTE);
                push_str_bytes(w, e.as_str());
            },
        }
        assert(w@ =~= start + encode_reply(self@));
    }
}

} // verus!
