//! What the server answers to one request, and what a client makes of the answer.
//!
//! Each connection carries one request: a record in the wire format. The server decodes it,
//! runs it on its engine and answers with one [`Response`].

use vstd::prelude::*;

use crate::cmd::{Cmd, Record};
use crate::engine::KvsEngine;
use crate::error::{error_text, Error};
use crate::reader::{decode_frame, Reader};
use crate::response::{Reply, Response};

verus! {

/// The answer to a `Put`, given what the engine returned.
pub open spec fn set_reply(r: Result<(), Error>) -> Reply {
    match r {
        Ok(()) => Reply::SuccessfulSet,
        Err(e) => Reply::Error(error_text(e)),
    }
}

/// The answer to a `Get`, given what the engine returned.
pub open spec fn get_reply(r: Result<Option<String>, Error>) -> Reply {
    match r {
        Ok(Some(v)) => Reply::SuccessfulGet(v@),
        Ok(None) => Reply::KeyNotFound,
        Err(e) => Reply::Error(error_text(e)),
    }
}

/// The answer to an `Rm`, given what the engine returned.
pub open spec fn rm_reply(r: Result<(), Error>) -> Reply {
    match r {
        Ok(()) => Reply::SuccessfulRm,
        Err(Error::KeyNotFound) => Reply::KeyNotFound,
        Err(e) => Reply::Error(error_text(e)),
    }
}

/// The answer to a `Put`, given what the engine returned.
pub fn set_response(r: Result<(), Error>) -> (resp: Response)
    ensures
        resp@ == set_reply(r),
{
    match r {
        Ok(()) => Response::SuccessfulSet,
        Err(e) => Response::Error(e.message()),
    }
}

/// The answer to a `Get`, given what the engine returned.
pub fn get_response(r: Result<Option<String>, Error>) -> (resp: Response)
    ensures
        resp@ == get_reply(r),
{
    match r {
        Ok(Some(v)) => Response::SuccessfulGet(v),
        Ok(None) => Response::KeyNotFound,
        Err(e) => Response::Error(e.message()),
    }
}

/// The answer to an `Rm`, given what the engine returned.
pub fn rm_response(r: Result<(), Error>) -> (resp: Response)
    ensures
        resp@ == rm_reply(r),
{
    match r {
        Ok(()) => Response::SuccessfulRm,
        Err(Error::KeyNotFound) => Response::KeyNotFound,
        Err(e) => Response::Error(e.message()),
    }
}

/// Runs one command on the engine and answers it.
pub fn handle_cmd<E: KvsEngine>(engine: &mut E, cmd: Cmd) -> (resp: Response)
    ensures
        cmd@ is Put ==> resp@ is SuccessfulSet || resp@ is Error,
        cmd@ is Get ==> resp@ is SuccessfulGet || resp@ is KeyNotFound || resp@ is Error,
        cmd@ is Rm ==> resp@ is SuccessfulRm || resp@ is KeyNotFound || resp@ is Error,
{
    match cmd {
        Cmd::Put(k, v) => set_response(engine.set(k, v)),
        Cmd::Get(k) => get_response(engine.get(k)),
        Cmd::Rm(k) => rm_response(engine.remove(k)),
    }
}

/// Answers the request whose bytes are `request`: an empty request and one that does not
/// decode are answered with an error, without touching the engine.
pub fn respond<E: KvsEngine>(engine: &mut E, request: &[u8]) -> (resp: Response)
    ensures
        decode_frame(request@) matches Ok(None) ==> resp@ == Reply::Error(
            "Response had no data"@,
        ),
        decode_frame(request@) matches Err(e) ==> resp@ == Reply::Error(error_text(e)),
        decode_frame(request@) matches Ok(Some((Record::Put(_, _), _))) ==> resp@ is SuccessfulSet
            || resp@ is Error,
        decode_frame(request@) matches Ok(Some((Record::Get(_), _))) ==> resp@ is SuccessfulGet
            || resp@ is KeyNotFound || resp@ is Error,
        decode_frame(request@) matches Ok(Some((Record::Rm(_), _))) ==> resp@ is SuccessfulRm
            || resp@ is KeyNotFound || resp@ is Error,
{
    let mut reader = Reader::new();
    match reader.read_cmd(request) {
        Ok(Some(rr)) => handle_cmd(engine, rr.into_cmd()),
        Ok(None) => Response::Error("Response had no data".to_owned()),
        Err(e) => Response::Error(e.message()),
    }
}

/// What a client makes of the answer to a `Put`.
pub fn set_outcome(resp: Response) -> (r: Result<(), Error>)
    ensures
        match resp@ {
            Reply::SuccessfulSet => r is Ok,
            Reply::Error(m) => r matches Err(Error::Server(s)) && s@ == m,
            _ => r matches Err(Error::UnexpectedResponse),
        },
{
    match resp {
        Response::SuccessfulSet => Ok(()),
        Response::Error(m) => Err(Error::Server(m)),
        _ => Err(Error::UnexpectedResponse),
    }
}

/// What a client makes of the answer to a `Get`.
pub fn get_outcome(resp: Response) -> (r: Result<Option<String>, Error>)
    ensures
        match resp@ {
            Reply::SuccessfulGet(v) => r matches Ok(Some(s)) && s@ == v,
            Reply::KeyNotFound => r matches Ok(None),
            Reply::Error(m) => r matches Err(Error::Server(s)) && s@ == m,
            _ => r matches Err(Error::UnexpectedResponse),
        },
{
    match resp {
        Response::SuccessfulGet(v) => Ok(Some(v)),
        Response::KeyNotFound => Ok(None),
        Response::Error(m) => Err(Error::Server(m)),
        _ => Err(Error::UnexpectedResponse),
    }
}

/// What a client makes of the answer to an `Rm`.
pub fn rm_outcome(resp: Response) -> (r: Result<(), Error>)
    ensures
        match resp@ {
            Reply::SuccessfulRm => r is Ok,
            Reply::KeyNotFound => r matches Err(Error::KeyNotFound),
            Reply::Error(m) => r matches Err(Error::Server(s)) && s@ == m,
            _ => r matches Err(Error::UnexpectedResponse),
        },
{
    match resp {
        Response::SuccessfulRm => Ok(()),
        Response::KeyNotFound => Err(Error::KeyNotFound),
        Response::Error(m) => Err(Error::Server(m)),
        _ => Err(Error::UnexpectedResponse),
    }
}

} // verus!
