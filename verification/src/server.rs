//! Request handling: from a request and an engine to the response that
//! goes back to the client.

use crate::common::{Request, RequestView, Response, ResponseView};
use crate::engine::KvEngine;
use crate::error::KvError;
use crate::json::Flaw;
use crate::record::{codec_error, flaw_text};
use crate::thread_pool::ThreadPool;
use crate::wire::{decode_request, decode_response, encode_frame, encode_request, encode_response, frame, MAX_FRAME};
use vstd::prelude::*;

verus! {

/// A server: an engine that answers requests and a pool that runs them.
pub struct KvServer<E: KvEngine, T: ThreadPool> {
    engine: E,
    pool: T,
}

impl<E: KvEngine, T: ThreadPool> KvServer<E, T> {
    /// The engine that this server answers from.
    pub closed spec fn spec_engine(&self) -> E {
        self.engine
    }

    /// The pool that this server runs requests on.
    pub closed spec fn spec_pool(&self) -> T {
        self.pool
    }

    /// A server over `engine` that runs its requests on `pool`.
    pub fn new(engine: E, pool: T) -> (server: KvServer<E, T>)
        ensures
            server.spec_engine() == engine,
            server.spec_pool() == pool,
    {
        KvServer { engine, pool }
    }

    /// The engine that this server answers from.
    pub fn engine(&self) -> (engine: &E)
        ensures
            *engine == self.spec_engine(),
    {
        &self.engine
    }

    /// The pool that this server runs requests on.
    pub fn pool(&self) -> (pool: &T)
        ensures
            *pool == self.spec_pool(),
    {
        &self.pool
    }
}

/// The response to a lookup that ended in `outcome`.
pub open spec fn lookup_reply(outcome: Result<Option<String>, KvError>) -> ResponseView {
    match outcome {
        Ok(Some(value)) => ResponseView::Done(Some(value@)),
        Ok(None) => ResponseView::Done(None),
        Err(error) => ResponseView::Failed(error.message_text()),
    }
}

/// The response to an update that ended in `outcome`.
pub open spec fn update_reply(outcome: Result<(), KvError>) -> ResponseView {
    match outcome {
        Ok(_) => ResponseView::Done(None),
        Err(error) => ResponseView::Failed(error.message_text()),
    }
}

/// What a client makes of `response`: the value of a success, or the
/// server's message as a `Remote` error.
pub open spec fn client_outcome(response: ResponseView) -> Result<Option<Seq<char>>, Seq<char>> {
    match response {
        ResponseView::Done(value) => Ok(value),
        ResponseView::Failed(message) => Err(message),
    }
}

/// Turns the outcome of `get` into the response for the client: the value
/// found, or the error's message.
pub fn reply_to_lookup(outcome: Result<Option<String>, KvError>) -> (response: Response)
    ensures
        response@ == lookup_reply(outcome),
{
    match outcome {
        Ok(value) => Response::Done(value),
        Err(error) => Response::Failed(error.message()),
    }
}

/// Turns the outcome of `set` or `remove` into the response for the
/// client: an empty success, or the error's message.
pub fn reply_to_update(outcome: Result<(), KvError>) -> (response: Response)
    ensures
        response@ == update_reply(outcome),
{
    match outcome {
        Ok(_) => Response::Done(None),
        Err(error) => Response::Failed(error.message()),
    }
}

/// Whether `response` answers a lookup of `key` on an engine that went
/// from `before` to `after`: it wraps what the engine's `get` gave back.
pub open spec fn answers_lookup<E: KvEngine>(before: E, key: Seq<char>, after: E, response: ResponseView) -> bool {
    exists|outcome: Result<Option<String>, KvError>|
        (#[trigger] E::gets(before, key, after, outcome)) && response == lookup_reply(outcome)
}

/// Whether `response` answers `set(key, value)` on an engine that went
/// from `before` to `after`: it wraps what the engine's `set` gave back.
pub open spec fn answers_set<E: KvEngine>(
    before: E,
    key: Seq<char>,
    value: Seq<char>,
    after: E,
    response: ResponseView,
) -> bool {
    exists|outcome: Result<(), KvError>|
        (#[trigger] E::sets(before, key, value, after, outcome)) && response == update_reply(outcome)
}

/// Whether `response` answers `remove(key)` on an engine that went from
/// `before` to `after`: it wraps what the engine's `remove` gave back.
pub open spec fn answers_remove<E: KvEngine>(before: E, key: Seq<char>, after: E, response: ResponseView) -> bool {
    exists|outcome: Result<(), KvError>|
        (#[trigger] E::removes(before, key, after, outcome)) && response == update_reply(outcome)
}

/// Whether `response` answers `request` on an engine that went from
/// `before` to `after`: the engine was asked exactly what the request
/// asks, once, and the response wraps what the engine gave back.
pub open spec fn responds<E: KvEngine>(
    before: E,
    request: RequestView,
    after: E,
    response: ResponseView,
) -> bool {
    match request {
        RequestView::Get(key) => answers_lookup(before, key, after, response),
        RequestView::Put(key, value) => answers_set(before, key, value, after, response),
        RequestView::Remove(key) => answers_remove(before, key, after, response),
    }
}

/// Runs `request` on `engine` and wraps what came back.
///
/// A lookup asks the engine for the key and answers with the value found
/// or with the engine's error; an update asks the engine to set or to
/// remove and answers with an empty success or with the engine's error.
/// Every failure of the engine becomes a response; none is lost and none
/// ends the connection. An update never answers with a value.
pub fn respond<E: KvEngine>(engine: &mut E, request: Request) -> (response: Response)
    ensures
        responds(*old(engine), request@, *final(engine), response@),
        !(request@ is Get) ==> response@ is Failed || response@ == ResponseView::Done(None),
{
    match request {
        Request::Get(key) => {
            let ghost asked = key@;
            let outcome = engine.get(key);
            let response = reply_to_lookup(outcome);
            assert(E::gets(*old(engine), asked, *engine, outcome) && response@ == lookup_reply(outcome));
            assert(answers_lookup(*old(engine), asked, *engine, response@));
            response
        },
        Request::Put(key, value) => {
            let ghost asked = (key@, value@);
            let outcome = engine.set(key, value);
            let response = reply_to_update(outcome);
            assert(E::sets(*old(engine), asked.0, asked.1, *engine, outcome) && response@ == update_reply(
                outcome,
            ));
            assert(answers_set(*old(engine), asked.0, asked.1, *engine, response@));
            response
        },
        Request::Remove(key) => {
            let ghost asked = key@;
            let outcome = engine.remove(key);
            let response = reply_to_update(outcome);
            assert(E::removes(*old(engine), asked, *engine, outcome) && response@ == update_reply(outcome));
            assert(answers_remove(*old(engine), asked, *engine, response@));
            response
        },
    }
}

/// Reads a response on the client's side.
pub fn outcome_of(response: Response) -> (outcome: Result<Option<String>, KvError>)
    ensures
        match outcome {
            Ok(Some(value)) => client_outcome(response@) == Ok::<Option<Seq<char>>, Seq<char>>(Some(value@)),
            Ok(None) => client_outcome(response@) == Ok::<Option<Seq<char>>, Seq<char>>(None),
            Err(KvError::Remote(message)) => client_outcome(response@) == Err::<Option<Seq<char>>, Seq<char>>(
                message@,
            ),
            Err(_) => false,
        },
{
    match response {
        Response::Done(value) => Ok(value),
        Response::Failed(message) => Err(KvError::Remote(message)),
    }
}

/// Reads the payload of a frame as a request; a payload that is none
/// fails with `Codec`.
pub fn read_request(payload: &[u8]) -> (request: Result<Request, KvError>)
    ensures
        match request {
            Ok(request) => decode_request(payload@) == Ok::<RequestView, Flaw>(request@),
            Err(KvError::Codec(text)) => decode_request(payload@) matches Err(flaw) && text@ == flaw_text(flaw),
            Err(_) => false,
        },
{
    match Request::decode(payload) {
        Ok(request) => Ok(request),
        Err(flaw) => Err(codec_error(flaw)),
    }
}

/// Reads the payload of a frame as a response; a payload that is none
/// fails with `Codec`.
pub fn read_response(payload: &[u8]) -> (response: Result<Response, KvError>)
    ensures
        match response {
            Ok(response) => decode_response(payload@) == Ok::<ResponseView, Flaw>(response@),
            Err(KvError::Codec(text)) => decode_response(payload@) matches Err(flaw) && text@ == flaw_text(flaw),
            Err(_) => false,
        },
{
    match Response::decode(payload) {
        Ok(response) => Ok(response),
        Err(flaw) => Err(codec_error(flaw)),
    }
}

/// The frame that carries `request`; fails with `Codec` where the
/// request is too long for a frame.
pub fn frame_request(request: &Request) -> (framed: Result<Vec<u8>, KvError>)
    ensures
        match framed {
            Ok(bytes) => encode_request(request@).len() <= MAX_FRAME && bytes@ == frame(encode_request(request@)),
            Err(KvError::Codec(_)) => encode_request(request@).len() > MAX_FRAME,
            Err(_) => false,
        },
{
    let payload = request.encode();
    encode_frame(payload.as_slice())
}

/// The frame that carries `response`; fails with `Codec` where the
/// response is too long for a frame.
pub fn frame_response(response: &Response) -> (framed: Result<Vec<u8>, KvError>)
    ensures
        match framed {
            Ok(bytes) => encode_response(response@).len() <= MAX_FRAME && bytes@ == frame(
                encode_response(response@),
            ),
            Err(KvError::Codec(_)) => encode_response(response@).len() > MAX_FRAME,
            Err(_) => false,
        },
{
    let payload = response.encode();
    encode_frame(payload.as_slice())
}

/// Whether `answer` is what goes back for `response`: its frame, or
/// `Codec` where the response is too long for one.
pub open spec fn carries(response: ResponseView, answer: Result<Vec<u8>, KvError>) -> bool {
    if encode_response(response).len() <= MAX_FRAME {
        answer matches Ok(bytes) && bytes@ == frame(encode_response(response))
    } else {
        answer matches Err(KvError::Codec(_))
    }
}

/// Whether `answer` serves `request` on an engine that went from `before`
/// to `after`: it carries a response that answers the request.
pub open spec fn serves<E: KvEngine>(
    before: E,
    request: RequestView,
    after: E,
    answer: Result<Vec<u8>, KvError>,
) -> bool {
    exists|response: ResponseView|
        (#[trigger] responds(before, request, after, response)) && carries(response, answer)
}

/// Serves the payload of one frame: reads the request, runs it on
/// `engine`, and frames the response.
///
/// A payload that is no request ends in `Codec` before the engine is
/// touched. Otherwise the engine is asked what the request asks, and the
/// answer is the frame of the response to what the engine gave back.
pub fn serve<E: KvEngine>(engine: &mut E, payload: &[u8]) -> (answer: Result<Vec<u8>, KvError>)
    ensures
        match decode_request(payload@) {
            Err(flaw) => {
                &&& answer matches Err(KvError::Codec(text)) && text@ == flaw_text(flaw)
                &&& *final(engine) == *old(engine)
            },
            Ok(request) => serves(*old(engine), request, *final(engine), answer),
        },
{
    let request = match read_request(payload) {
        Ok(request) => request,
        Err(error) => { return Err(error); },
    };
    let ghost asked = request@;
    let response = respond(engine, request);
    let answer = frame_response(&response);
    proof {
        assert(responds(*old(engine), asked, *engine, response@) && carries(response@, answer));
    }
    answer
}

} // verus!
