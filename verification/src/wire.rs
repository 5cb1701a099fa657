//! The wire format: JSON payloads `{"Get":key}`, `{"Set":[key,value]}`,
//! `{"Remove":key}`, `{"Ok":null}`, `{"Ok":value}`, `{"Err":message}`,
//! each sent as a frame of a big-endian 32-bit length and that many bytes.

use crate::common::{Request, RequestView, Response, ResponseView};
use crate::error::KvError;
use crate::json::{
    append, either_flaw, expect, expect_byte, keyed_at, lemma_expect_here, lemma_keyed_at,
    lemma_keyed_at_differs, lemma_pair_message_at, lemma_single_message_at, match_tag,
    merge_flaws, opening_at, pair_at, pair_message, quoted, quotes_faithfully, read_key,
    read_opening, read_pair, read_single, single_at, single_message, skip_space, skip_space_from,
    tag_at, write_pair, write_single, is_space, Flaw, CLOSE, COLON, OPEN, QUOTE,
};
use crate::record::{remove_tag, set_tag};
use vstd::prelude::*;

verus! {

/// `"Get"`, quotes included.
pub open spec fn get_tag() -> Seq<u8> {
    seq![0x22u8, 0x47u8, 0x65u8, 0x74u8, 0x22u8]
}

/// `"Ok"`, quotes included.
pub open spec fn ok_tag() -> Seq<u8> {
    seq![0x22u8, 0x4fu8, 0x6bu8, 0x22u8]
}

/// `"Err"`, quotes included.
pub open spec fn err_tag() -> Seq<u8> {
    seq![0x22u8, 0x45u8, 0x72u8, 0x72u8, 0x22u8]
}

/// `null`
pub open spec fn null_word() -> Seq<u8> {
    seq![0x6eu8, 0x75u8, 0x6cu8, 0x6cu8]
}

/// `{` tag `:null}`
pub open spec fn null_message(tag: Seq<u8>) -> Seq<u8> {
    seq![OPEN] + tag + seq![COLON] + null_word() + seq![CLOSE]
}

/// The payload that stands for `request`.
pub open spec fn encode_request(request: RequestView) -> Seq<u8> {
    match request {
        RequestView::Get(key) => single_message(get_tag(), key),
        RequestView::Put(key, value) => pair_message(set_tag(), key, value),
        RequestView::Remove(key) => single_message(remove_tag(), key),
    }
}

/// The payload that stands for `response`.
pub open spec fn encode_response(response: ResponseView) -> Seq<u8> {
    match response {
        ResponseView::Done(None) => null_message(ok_tag()),
        ResponseView::Done(Some(value)) => single_message(ok_tag(), value),
        ResponseView::Failed(message) => single_message(err_tag(), message),
    }
}

/// Reads one request that starts at or after `from`.
pub open spec fn request_at(bytes: Seq<u8>, from: int) -> Result<(RequestView, int), Flaw> {
    match opening_at(bytes, from) {
        Err(flaw) => Err(flaw),
        Ok(at) => match keyed_at(bytes, at, get_tag()) {
            Ok(body) => match single_at(bytes, body) {
                Ok((key, end)) => Ok((RequestView::Get(key), end)),
                Err(flaw) => Err(flaw),
            },
            Err(first) => match keyed_at(bytes, at, set_tag()) {
                Ok(body) => match pair_at(bytes, body) {
                    Ok(((key, value), end)) => Ok((RequestView::Put(key, value), end)),
                    Err(flaw) => Err(flaw),
                },
                Err(second) => match keyed_at(bytes, at, remove_tag()) {
                    Ok(body) => match single_at(bytes, body) {
                        Ok((key, end)) => Ok((RequestView::Remove(key), end)),
                        Err(flaw) => Err(flaw),
                    },
                    Err(third) => Err(either_flaw(either_flaw(first, second), third)),
                },
            },
        },
    }
}

/// Reads `null` or a text, then the closing `}`.
pub open spec fn optional_at(bytes: Seq<u8>, from: int) -> Result<(Option<Seq<char>>, int), Flaw> {
    let at = skip_space(bytes, from);
    if at < bytes.len() && bytes[at] == 0x6eu8 {
        match tag_at(bytes, at, null_word()) {
            Err(flaw) => Err(flaw),
            Ok(next) => match expect(bytes, next, CLOSE) {
                Ok(end) => Ok((None, end)),
                Err(flaw) => Err(flaw),
            },
        }
    } else {
        match single_at(bytes, from) {
            Ok((text, end)) => Ok((Some(text), end)),
            Err(flaw) => Err(flaw),
        }
    }
}

/// Reads one response that starts at or after `from`.
pub open spec fn response_at(bytes: Seq<u8>, from: int) -> Result<(ResponseView, int), Flaw> {
    match opening_at(bytes, from) {
        Err(flaw) => Err(flaw),
        Ok(at) => match keyed_at(bytes, at, ok_tag()) {
            Ok(body) => match optional_at(bytes, body) {
                Ok((value, end)) => Ok((ResponseView::Done(value), end)),
                Err(flaw) => Err(flaw),
            },
            Err(first) => match keyed_at(bytes, at, err_tag()) {
                Ok(body) => match single_at(bytes, body) {
                    Ok((message, end)) => Ok((ResponseView::Failed(message), end)),
                    Err(flaw) => Err(flaw),
                },
                Err(second) => Err(either_flaw(first, second)),
            },
        },
    }
}

/// Reads `bytes` as exactly one request; only blanks may surround it.
pub open spec fn decode_request(bytes: Seq<u8>) -> Result<RequestView, Flaw> {
    match request_at(bytes, 0) {
        Err(flaw) => Err(flaw),
        Ok((request, end)) => if skip_space(bytes, end) >= bytes.len() {
            Ok(request)
        } else {
            Err(Flaw::Malformed)
        },
    }
}

/// Reads `bytes` as exactly one response; only blanks may surround it.
pub open spec fn decode_response(bytes: Seq<u8>) -> Result<ResponseView, Flaw> {
    match response_at(bytes, 0) {
        Err(flaw) => Err(flaw),
        Ok((response, end)) => if skip_space(bytes, end) >= bytes.len() {
            Ok(response)
        } else {
            Err(Flaw::Malformed)
        },
    }
}

fn tag_bytes_get() -> (tag: Vec<u8>)
    ensures
        tag@ == get_tag(),
{
    let tag = vec![0x22u8, 0x47u8, 0x65u8, 0x74u8, 0x22u8];
    proof {
        assert(tag@ =~= get_tag());
    }
    tag
}

fn tag_bytes_set() -> (tag: Vec<u8>)
    ensures
        tag@ == set_tag(),
{
    let tag = vec![0x22u8, 0x53u8, 0x65u8, 0x74u8, 0x22u8];
    proof {
        assert(tag@ =~= set_tag());
    }
    tag
}

fn tag_bytes_remove() -> (tag: Vec<u8>)
    ensures
        tag@ == remove_tag(),
{
    let tag = vec![0x22u8, 0x52u8, 0x65u8, 0x6du8, 0x6fu8, 0x76u8, 0x65u8, 0x22u8];
    proof {
        assert(tag@ =~= remove_tag());
    }
    tag
}

fn tag_bytes_ok() -> (tag: Vec<u8>)
    ensures
        tag@ == ok_tag(),
{
    let tag = vec![0x22u8, 0x4fu8, 0x6bu8, 0x22u8];
    proof {
        assert(tag@ =~= ok_tag());
    }
    tag
}

fn tag_bytes_err() -> (tag: Vec<u8>)
    ensures
        tag@ == err_tag(),
{
    let tag = vec![0x22u8, 0x45u8, 0x72u8, 0x72u8, 0x22u8];
    proof {
        assert(tag@ =~= err_tag());
    }
    tag
}

fn null_bytes() -> (word: Vec<u8>)
    ensures
        word@ == null_word(),
{
    let word = vec![0x6eu8, 0x75u8, 0x6cu8, 0x6cu8];
    proof {
        assert(word@ =~= null_word());
    }
    word
}

fn read_optional(bytes: &[u8], from: usize) -> (found: Result<(Option<String>, usize), Flaw>)
    requires
        from <= bytes@.len(),
    ensures
        match found {
            Ok((Some(text), n)) => optional_at(bytes@, from as int) == Ok::<(Option<Seq<char>>, int), Flaw>(
                (Some(text@), n as int),
            ) && n <= bytes@.len(),
            Ok((None, n)) => optional_at(bytes@, from as int) == Ok::<(Option<Seq<char>>, int), Flaw>(
                (None, n as int),
            ) && n <= bytes@.len(),
            Err(flaw) => optional_at(bytes@, from as int) == Err::<(Option<Seq<char>>, int), Flaw>(flaw),
        },
{
    let at = skip_space_from(bytes, from);
    if at < bytes.len() && bytes[at] == 0x6eu8 {
        let word = null_bytes();
        match match_tag(bytes, at, word.as_slice()) {
            Err(flaw) => Err(flaw),
            Ok(next) => match expect_byte(bytes, next, CLOSE) {
                Ok(end) => Ok((None, end)),
                Err(flaw) => Err(flaw),
            },
        }
    } else {
        match read_single(bytes, from) {
            Ok((text, end)) => Ok((Some(text), end)),
            Err(flaw) => Err(flaw),
        }
    }
}

impl Request {
    /// Writes the request as a payload.
    pub fn encode(&self) -> (bytes: Vec<u8>)
        ensures
            bytes@ == encode_request(self@),
    {
        match self {
            Request::Get(key) => {
                let tag = tag_bytes_get();
                write_single(tag.as_slice(), key.as_str())
            },
            Request::Put(key, value) => {
                let tag = tag_bytes_set();
                write_pair(tag.as_slice(), key.as_str(), value.as_str())
            },
            Request::Remove(key) => {
                let tag = tag_bytes_remove();
                write_single(tag.as_slice(), key.as_str())
            },
        }
    }

    /// Reads a payload as exactly one request.
    pub fn decode(bytes: &[u8]) -> (found: Result<Request, Flaw>)
        ensures
            match found {
                Ok(request) => decode_request(bytes@) == Ok::<RequestView, Flaw>(request@),
                Err(flaw) => decode_request(bytes@) == Err::<RequestView, Flaw>(flaw),
            },
    {
        let at = match read_opening(bytes, 0) {
            Ok(at) => at,
            Err(flaw) => { return Err(flaw); },
        };
        let get = tag_bytes_get();
        let (request, end) = match read_key(bytes, at, get.as_slice()) {
            Ok(body) => match read_single(bytes, body) {
                Ok((key, end)) => (Request::Get(key), end),
                Err(flaw) => { return Err(flaw); },
            },
            Err(first) => {
                let set = tag_bytes_set();
                match read_key(bytes, at, set.as_slice()) {
                    Ok(body) => match read_pair(bytes, body) {
                        Ok((key, value, end)) => (Request::Put(key, value), end),
                        Err(flaw) => { return Err(flaw); },
                    },
                    Err(second) => {
                        let remove = tag_bytes_remove();
                        match read_key(bytes, at, remove.as_slice()) {
                            Ok(body) => match read_single(bytes, body) {
                                Ok((key, end)) => (Request::Remove(key), end),
                                Err(flaw) => { return Err(flaw); },
                            },
                            Err(third) => {
                                return Err(merge_flaws(merge_flaws(first, second), third));
                            },
                        }
                    },
                }
            },
        };
        if skip_space_from(bytes, end) >= bytes.len() {
            Ok(request)
        } else {
            Err(Flaw::Malformed)
        }
    }
}

impl Response {
    /// Writes the response as a payload.
    pub fn encode(&self) -> (bytes: Vec<u8>)
        ensures
            bytes@ == encode_response(self@),
    {
        match self {
            Response::Done(None) => {
                let tag = tag_bytes_ok();
                let word = null_bytes();
                let mut out: Vec<u8> = Vec::new();
                out.push(OPEN);
                append(&mut out, tag.as_slice());
                out.push(COLON);
                append(&mut out, word.as_slice());
                out.push(CLOSE);
                proof {
                    assert(out@ =~= null_message(ok_tag()));
                }
                out
            },
            Response::Done(Some(value)) => {
                let tag = tag_bytes_ok();
                write_single(tag.as_slice(), value.as_str())
            },
            Response::Failed(message) => {
                let tag = tag_bytes_err();
                write_single(tag.as_slice(), message.as_str())
            },
        }
    }

    /// Reads a payload as exactly one response.
    pub fn decode(bytes: &[u8]) -> (found: Result<Response, Flaw>)
        ensures
            match found {
                Ok(response) => decode_response(bytes@) == Ok::<ResponseView, Flaw>(response@),
                Err(flaw) => decode_response(bytes@) == Err::<ResponseView, Flaw>(flaw),
            },
    {
        let at = match read_opening(bytes, 0) {
            Ok(at) => at,
            Err(flaw) => { return Err(flaw); },
        };
        let ok = tag_bytes_ok();
        let (response, end) = match read_key(bytes, at, ok.as_slice()) {
            Ok(body) => match read_optional(bytes, body) {
                Ok((value, end)) => (Response::Done(value), end),
                Err(flaw) => { return Err(flaw); },
            },
            Err(first) => {
                let err = tag_bytes_err();
                match read_key(bytes, at, err.as_slice()) {
                    Ok(body) => match read_single(bytes, body) {
                        Ok((message, end)) => (Response::Failed(message), end),
                        Err(flaw) => { return Err(flaw); },
                    },
                    Err(second) => { return Err(merge_flaws(first, second)); },
                }
            },
        };
        if skip_space_from(bytes, end) >= bytes.len() {
            Ok(response)
        } else {
            Err(Flaw::Malformed)
        }
    }
}

/// Whether every text of `request` survives quoting and unquoting.
pub open spec fn request_is_faithful(request: RequestView) -> bool {
    match request {
        RequestView::Get(key) => quotes_faithfully(key),
        RequestView::Put(key, value) => quotes_faithfully(key) && quotes_faithfully(value),
        RequestView::Remove(key) => quotes_faithfully(key),
    }
}

/// Whether every text of `response` survives quoting and unquoting.
pub open spec fn response_is_faithful(response: ResponseView) -> bool {
    match response {
        ResponseView::Done(None) => true,
        ResponseView::Done(Some(value)) => quotes_faithfully(value),
        ResponseView::Failed(message) => quotes_faithfully(message),
    }
}

proof fn lemma_get_round_trip(key: Seq<char>)
    requires
        quotes_faithfully(key),
    ensures
        decode_request(single_message(get_tag(), key)) == Ok::<RequestView, Flaw>(RequestView::Get(key)),
{
    let bytes = single_message(get_tag(), key);
    assert(bytes.subrange(0, bytes.len() as int) =~= bytes);
    lemma_single_message_at(bytes, 0, get_tag(), key);
    assert(request_at(bytes, 0) == Ok::<(RequestView, int), Flaw>((RequestView::Get(key), bytes.len() as int)));
}

/// The second byte of each tag: what tells the tags apart.
proof fn lemma_tag_marks()
    ensures
        get_tag().len() == 5 && get_tag()[0] == QUOTE && get_tag()[1] == 0x47u8,
        set_tag().len() == 5 && set_tag()[0] == QUOTE && set_tag()[1] == 0x53u8,
        remove_tag().len() == 8 && remove_tag()[0] == QUOTE && remove_tag()[1] == 0x52u8,
        ok_tag().len() == 4 && ok_tag()[0] == QUOTE && ok_tag()[1] == 0x4fu8,
        err_tag().len() == 5 && err_tag()[0] == QUOTE && err_tag()[1] == 0x45u8,
{
}

/// A message that carries one tag does not carry another.
proof fn lemma_other_tag(bytes: Seq<u8>, tag: Seq<u8>, other: Seq<u8>)
    requires
        bytes.len() > 2,
        tag.len() > 1,
        other.len() > 1,
        bytes[2] == tag[1],
        other[1] != tag[1],
    ensures
        keyed_at(bytes, 1, other) is Err,
{
    lemma_keyed_at_differs(bytes, 1, other, 1);
}

proof fn lemma_put_round_trip(key: Seq<char>, value: Seq<char>)
    requires
        quotes_faithfully(key),
        quotes_faithfully(value),
    ensures
        decode_request(pair_message(set_tag(), key, value)) == Ok::<RequestView, Flaw>(
            RequestView::Put(key, value),
        ),
{
    let bytes = pair_message(set_tag(), key, value);
    lemma_tag_marks();
    assert(bytes.subrange(0, bytes.len() as int) =~= bytes);
    lemma_pair_message_at(bytes, 0, set_tag(), key, value);
    assert(bytes[2] == set_tag()[1]);
    lemma_other_tag(bytes, set_tag(), get_tag());
}

proof fn lemma_remove_round_trip(key: Seq<char>)
    requires
        quotes_faithfully(key),
    ensures
        decode_request(single_message(remove_tag(), key)) == Ok::<RequestView, Flaw>(RequestView::Remove(key)),
{
    let bytes = single_message(remove_tag(), key);
    lemma_tag_marks();
    assert(bytes.subrange(0, bytes.len() as int) =~= bytes);
    lemma_single_message_at(bytes, 0, remove_tag(), key);
    assert(bytes[2] == remove_tag()[1]);
    lemma_other_tag(bytes, remove_tag(), get_tag());
    lemma_other_tag(bytes, remove_tag(), set_tag());
}

/// Encoding a request and decoding the payload gives the request back,
/// for every request whose texts `serde_json` quotes faithfully.
pub proof fn law_request_round_trip(request: RequestView)
    requires
        request_is_faithful(request),
    ensures
        decode_request(encode_request(request)) == Ok::<RequestView, Flaw>(request),
{
    match request {
        RequestView::Get(key) => lemma_get_round_trip(key),
        RequestView::Put(key, value) => lemma_put_round_trip(key, value),
        RequestView::Remove(key) => lemma_remove_round_trip(key),
    }
}

proof fn lemma_word_message_at(bytes: Seq<u8>, tag: Seq<u8>, word: Seq<u8>, t: int, w: int)
    requires
        t == tag.len(),
        w == word.len(),
        t > 0,
        tag[0] == QUOTE,
        w > 0,
        !is_space(word[0]),
        bytes == seq![OPEN] + tag + seq![COLON] + word + seq![CLOSE],
    ensures
        bytes.len() == t + w + 3,
        opening_at(bytes, 0) == Ok::<int, Flaw>(1),
        keyed_at(bytes, 1, tag) == Ok::<int, Flaw>(2 + t),
        skip_space(bytes, 2 + t) == 2 + t,
        bytes[2 + t] == word[0],
        tag_at(bytes, 2 + t, word) == Ok::<int, Flaw>(2 + t + w),
        expect(bytes, 2 + t + w, CLOSE) == Ok::<int, Flaw>(3 + t + w),
        skip_space(bytes, 3 + t + w) == 3 + t + w,
{
    assert(bytes[0] == OPEN);
    assert(bytes[1] == tag[0]);
    lemma_expect_here(bytes, 0, OPEN);
    assert(skip_space(bytes, 1) == 1);
    assert(bytes.subrange(1, 1 + t) =~= tag);
    assert(bytes[1 + t] == COLON);
    lemma_keyed_at(bytes, 1, tag);
    assert(bytes[2 + t] == word[0]);
    assert(bytes.subrange(2 + t, 2 + t + w) =~= word);
    assert(bytes[2 + t + w] == CLOSE);
    lemma_expect_here(bytes, 2 + t + w, CLOSE);
}

proof fn lemma_null_round_trip()
    ensures
        decode_response(null_message(ok_tag())) == Ok::<ResponseView, Flaw>(ResponseView::Done(None)),
{
    let bytes = null_message(ok_tag());
    assert(ok_tag().len() == 4 && ok_tag()[0] == QUOTE);
    assert(null_word().len() == 4 && null_word()[0] == 0x6eu8);
    lemma_word_message_at(bytes, ok_tag(), null_word(), 4, 4);
    assert(optional_at(bytes, 6) == Ok::<(Option<Seq<char>>, int), Flaw>((None, 11)));
    assert(response_at(bytes, 0) == Ok::<(ResponseView, int), Flaw>((ResponseView::Done(None), 11)));
}

proof fn lemma_done_round_trip(value: Seq<char>)
    requires
        quotes_faithfully(value),
    ensures
        decode_response(single_message(ok_tag(), value)) == Ok::<ResponseView, Flaw>(
            ResponseView::Done(Some(value)),
        ),
{
    let bytes = single_message(ok_tag(), value);
    assert(bytes.subrange(0, bytes.len() as int) =~= bytes);
    lemma_single_message_at(bytes, 0, ok_tag(), value);
    assert(optional_at(bytes, 6) == Ok::<(Option<Seq<char>>, int), Flaw>((Some(value), bytes.len() as int)))
        by {
        assert(bytes[6] == quoted(value)[0]);
        assert(skip_space(bytes, 6) == 6);
    }
    assert(response_at(bytes, 0) == Ok::<(ResponseView, int), Flaw>(
        (ResponseView::Done(Some(value)), bytes.len() as int),
    ));
}

proof fn lemma_failed_round_trip(message: Seq<char>)
    requires
        quotes_faithfully(message),
    ensures
        decode_response(single_message(err_tag(), message)) == Ok::<ResponseView, Flaw>(
            ResponseView::Failed(message),
        ),
{
    let bytes = single_message(err_tag(), message);
    lemma_tag_marks();
    assert(bytes.subrange(0, bytes.len() as int) =~= bytes);
    lemma_single_message_at(bytes, 0, err_tag(), message);
    assert(bytes[2] == err_tag()[1]);
    lemma_other_tag(bytes, err_tag(), ok_tag());
}

/// Encoding a response and decoding the payload gives the response back,
/// for every response whose text `serde_json` quotes faithfully.
pub proof fn law_response_round_trip(response: ResponseView)
    requires
        response_is_faithful(response),
    ensures
        decode_response(encode_response(response)) == Ok::<ResponseView, Flaw>(response),
{
    match response {
        ResponseView::Done(None) => lemma_null_round_trip(),
        ResponseView::Done(Some(value)) => lemma_done_round_trip(value),
        ResponseView::Failed(message) => lemma_failed_round_trip(message),
    }
}

/// The longest payload that a frame may carry: 8 MiB.
pub const MAX_FRAME: usize = 8388608;

/// The four bytes that stand for `length`, most significant first.
pub open spec fn length_prefix(length: int) -> Seq<u8> {
    seq![
        ((length / 16777216) % 256) as u8,
        ((length / 65536) % 256) as u8,
        ((length / 256) % 256) as u8,
        (length % 256) as u8,
    ]
}

/// The length that the first four bytes of `bytes` stand for.
pub open spec fn prefixed_length(bytes: Seq<u8>) -> int {
    bytes[0] * 16777216 + bytes[1] * 65536 + bytes[2] * 256 + bytes[3]
}

/// The frame that carries `payload`.
pub open spec fn frame(payload: Seq<u8>) -> Seq<u8> {
    length_prefix(payload.len() as int) + payload
}

/// What the start of a stream of bytes holds.
pub ghost enum Framed {
    /// More bytes are needed before the frame is whole.
    Partial,
    /// The frame announces a payload beyond `MAX_FRAME`.
    Oversized,
    /// A whole frame: its payload, and the length of the frame.
    Whole(Seq<u8>, int),
}

/// Reads the frame at the start of `bytes`.
pub open spec fn frame_at(bytes: Seq<u8>) -> Framed {
    if bytes.len() < 4 {
        Framed::Partial
    } else if prefixed_length(bytes) > MAX_FRAME {
        Framed::Oversized
    } else if bytes.len() < 4 + prefixed_length(bytes) {
        Framed::Partial
    } else {
        Framed::Whole(bytes.subrange(4, 4 + prefixed_length(bytes)), 4 + prefixed_length(bytes))
    }
}

/// Puts `payload` into a frame. A payload beyond `MAX_FRAME` is refused
/// with `Codec`.
pub fn encode_frame(payload: &[u8]) -> (framed: Result<Vec<u8>, KvError>)
    ensures
        match framed {
            Ok(bytes) => payload@.len() <= MAX_FRAME && bytes@ == frame(payload@),
            Err(KvError::Codec(_)) => payload@.len() > MAX_FRAME,
            Err(_) => false,
        },
{
    let length: usize = payload.len();
    if length > MAX_FRAME {
        return Err(KvError::Codec("frame size too big".to_string()));
    }
    let mut bytes: Vec<u8> = Vec::new();
    bytes.push(((length / 16777216) % 256) as u8);
    bytes.push(((length / 65536) % 256) as u8);
    bytes.push(((length / 256) % 256) as u8);
    bytes.push((length % 256) as u8);
    proof {
        assert(bytes@ =~= length_prefix(length as int));
    }
    append(&mut bytes, payload);
    Ok(bytes)
}

/// Takes the frame at the start of `buffer`, if it is whole: the result
/// is its payload and the length of the frame, which the caller drops
/// from the buffer. `None` asks for more bytes. A frame that announces a
/// payload beyond `MAX_FRAME` is refused with `Codec`.
pub fn decode_frame(buffer: &[u8]) -> (taken: Result<Option<(Vec<u8>, usize)>, KvError>)
    ensures
        match taken {
            Ok(Some((payload, used))) => frame_at(buffer@) == Framed::Whole(payload@, used as int),
            Ok(None) => frame_at(buffer@) == Framed::Partial,
            Err(KvError::Codec(_)) => frame_at(buffer@) == Framed::Oversized,
            Err(_) => false,
        },
{
    if buffer.len() < 4 {
        return Ok(None);
    }
    let length: u64 = (buffer[0] as u64) * 16777216 + (buffer[1] as u64) * 65536 + (buffer[2] as u64) * 256
        + (buffer[3] as u64);
    if length > MAX_FRAME as u64 {
        return Err(KvError::Codec("frame size too big".to_string()));
    }
    let length: usize = length as usize;
    if buffer.len() - 4 < length {
        return Ok(None);
    }
    let payload = vstd::slice::slice_to_vec(vstd::slice::slice_subrange(buffer, 4, 4 + length));
    Ok(Some((payload, 4 + length)))
}

/// A frame is read back as it was written, whatever follows it: the
/// payload comes out, and the frame's own length is what was used.
pub proof fn law_frame_round_trip(payload: Seq<u8>, rest: Seq<u8>)
    requires
        payload.len() <= MAX_FRAME,
    ensures
        frame_at(frame(payload) + rest) == Framed::Whole(payload, (4 + payload.len()) as int),
{
    let length = payload.len() as int;
    let bytes = frame(payload) + rest;
    assert(bytes[0] == length_prefix(length)[0]);
    assert(bytes[1] == length_prefix(length)[1]);
    assert(bytes[2] == length_prefix(length)[2]);
    assert(bytes[3] == length_prefix(length)[3]);
    assert(prefixed_length(bytes) == length) by {
        assert(length < 4294967296);
        assert(length == (length / 16777216) * 16777216 + ((length / 65536) % 256) * 65536 + ((length / 256)
            % 256) * 256 + length % 256);
        assert((length / 16777216) % 256 == length / 16777216);
    }
    assert(bytes.subrange(4, 4 + length) =~= payload);
}

/// The bytes that have come in on a connection and have not been taken
/// out as frames yet.
pub struct FrameBuffer {
    bytes: Vec<u8>,
}

impl View for FrameBuffer {
    type V = Seq<u8>;

    closed spec fn view(&self) -> Seq<u8> {
        self.bytes@
    }
}

impl FrameBuffer {
    /// A buffer that holds nothing.
    pub fn new() -> (buffer: FrameBuffer)
        ensures
            buffer@ == Seq::<u8>::empty(),
    {
        FrameBuffer { bytes: Vec::new() }
    }

    /// Adds bytes that have come in.
    pub fn push(&mut self, chunk: &[u8])
        ensures
            final(self)@ == old(self)@ + chunk@,
    {
        append(&mut self.bytes, chunk);
    }

    /// Takes the first frame out, if it is whole, and hands back its
    /// payload; what follows the frame stays. `None` asks for more bytes
    /// and changes nothing. A frame that announces a payload beyond
    /// `MAX_FRAME` is refused with `Codec`, and nothing changes.
    pub fn take_frame(&mut self) -> (taken: Result<Option<Vec<u8>>, KvError>)
        ensures
            match taken {
                Ok(Some(payload)) => frame_at(old(self)@) matches Framed::Whole(whole, used) && payload@ == whole
                    && final(self)@ == old(self)@.subrange(used, old(self)@.len() as int),
                Ok(None) => frame_at(old(self)@) == Framed::Partial && final(self)@ == old(self)@,
                Err(KvError::Codec(_)) => frame_at(old(self)@) == Framed::Oversized && final(self)@ == old(self)@,
                Err(_) => false,
            },
    {
        match decode_frame(self.bytes.as_slice()) {
            Err(error) => Err(error),
            Ok(None) => Ok(None),
            Ok(Some((payload, used))) => {
                let rest = self.bytes.split_off(used);
                self.bytes = rest;
                Ok(Some(payload))
            },
        }
    }

    /// Settles the end of the stream: a stream may end between frames,
    /// and ends in `Io` where it ends inside one.
    pub fn finish(&self) -> (ended: Result<(), KvError>)
        ensures
            match ended {
                Ok(_) => self@.len() == 0,
                Err(KvError::Io(_)) => self@.len() > 0,
                Err(_) => false,
            },
    {
        if self.bytes.len() == 0 {
            Ok(())
        } else {
            Err(KvError::Io("bytes remaining on stream".to_string()))
        }
    }
}

/// Frames come out as they went in: from a buffer that starts with the
/// frame of `payload`, `take_frame` takes exactly `payload` and leaves
/// exactly what followed the frame.
pub proof fn law_frames_come_out_in_order(payload: Seq<u8>, rest: Seq<u8>)
    requires
        payload.len() <= MAX_FRAME,
    ensures
        frame_at(frame(payload) + rest) matches Framed::Whole(whole, used) && whole == payload && (frame(
            payload,
        ) + rest).subrange(used, (frame(payload) + rest).len() as int) == rest,
{
    law_frame_round_trip(payload, rest);
    let bytes = frame(payload) + rest;
    assert(bytes.subrange((4 + payload.len()) as int, bytes.len() as int) =~= rest);
}

} // verus!
