use std::collections::HashMap;
use std::sync::{Arc, Mutex};

use rust_kv::common::{Request, Response};
use rust_kv::engine::{found_text, removal_outcome, KvEngine};
use rust_kv::error::KvError;
use rust_kv::server::{
    frame_request, frame_response, outcome_of, read_request, read_response, reply_to_lookup, reply_to_update,
    respond, serve, KvServer,
};
use rust_kv::thread_pool::ThreadPool;
use rust_kv::wire::{decode_frame, encode_frame, FrameBuffer, MAX_FRAME};

#[derive(Clone)]
struct MapEngine {
    map: Arc<Mutex<HashMap<String, String>>>,
}

impl MapEngine {
    fn new() -> MapEngine {
        MapEngine { map: Arc::new(Mutex::new(HashMap::new())) }
    }
}

impl KvEngine for MapEngine {
    fn set(&mut self, key: String, value: String) -> Result<(), KvError> {
        self.map.lock().unwrap().insert(key, value);
        Ok(())
    }

    fn get(&mut self, key: String) -> Result<Option<String>, KvError> {
        Ok(self.map.lock().unwrap().get(&key).cloned())
    }

    fn remove(&mut self, key: String) -> Result<(), KvError> {
        self.map.lock().unwrap().remove(&key).map(|_| ()).ok_or(KvError::KeyNotFound)
    }
}

#[derive(Clone)]
struct InlinePool;

impl ThreadPool for InlinePool {
    fn new(_: usize) -> Result<Self, KvError> {
        Ok(InlinePool)
    }

    fn spawn<F>(&self, job: F)
    where
        F: FnOnce() + Send + 'static,
    {
        job()
    }
}

fn payload_of(frame: &[u8]) -> Vec<u8> {
    let (payload, used) = decode_frame(frame).unwrap().unwrap();
    assert_eq!(used, frame.len());
    payload
}

#[test]
fn one_connection_gets_its_responses_in_order() {
    let mut engine = MapEngine::new();
    let requests = vec![
        Request::Put("x".to_string(), "1".to_string()),
        Request::Put("x".to_string(), "2".to_string()),
        Request::Get("x".to_string()),
        Request::Remove("x".to_string()),
        Request::Get("x".to_string()),
    ];
    let mut stream: Vec<u8> = Vec::new();
    for request in &requests {
        stream.extend_from_slice(&frame_request(request).unwrap());
    }
    let mut buffer = FrameBuffer::new();
    let mut answers: Vec<Vec<u8>> = Vec::new();
    for chunk in stream.chunks(3) {
        buffer.push(chunk);
        while let Some(payload) = buffer.take_frame().unwrap() {
            let answer = serve(&mut engine, &payload).unwrap();
            answers.push(payload_of(&answer));
        }
    }
    assert!(buffer.finish().is_ok());
    let expected: Vec<&[u8]> =
        vec![b"{\"Ok\":null}", b"{\"Ok\":null}", b"{\"Ok\":\"2\"}", b"{\"Ok\":null}", b"{\"Ok\":null}"];
    assert_eq!(answers.len(), expected.len());
    for (answer, expected) in answers.iter().zip(expected) {
        assert_eq!(answer.as_slice(), expected);
    }
}

#[test]
fn engine_errors_become_responses() {
    let mut engine = MapEngine::new();
    let response = respond(&mut engine, Request::Remove("missing".to_string()));
    assert!(matches!(&response, Response::Failed(message) if message == "Key not found"));
    let outcome = outcome_of(response);
    assert!(matches!(outcome, Err(KvError::Remote(message)) if message == "Key not found"));
}

#[test]
fn replies_carry_value_or_message() {
    assert!(matches!(reply_to_lookup(Ok(Some("v".to_string()))), Response::Done(Some(v)) if v == "v"));
    assert!(matches!(reply_to_lookup(Ok(None)), Response::Done(None)));
    assert!(matches!(
        reply_to_lookup(Err(KvError::UnexpectedRecord)),
        Response::Failed(m) if m == "Unexpected command type"
    ));
    assert!(matches!(reply_to_update(Ok(())), Response::Done(None)));
    assert!(matches!(reply_to_update(Err(KvError::Io("disk full".to_string()))), Response::Failed(m) if m == "disk full"));
}

#[test]
fn client_reads_responses() {
    assert_eq!(outcome_of(Response::Done(Some("v".to_string()))).unwrap(), Some("v".to_string()));
    assert_eq!(outcome_of(Response::Done(None)).unwrap(), None);
    let answer = frame_response(&Response::Done(Some("2".to_string()))).unwrap();
    let response = read_response(&payload_of(&answer)).unwrap();
    assert_eq!(outcome_of(response).unwrap(), Some("2".to_string()));
}

#[test]
fn payload_that_is_no_request_ends_in_codec() {
    let mut engine = MapEngine::new();
    assert!(matches!(serve(&mut engine, b"{\"Ok\":null}"), Err(KvError::Codec(_))));
    assert!(matches!(read_request(b"{\"Get\":"), Err(KvError::Codec(m)) if m == "unexpected end of input"));
    assert!(matches!(read_request(b"{\"Get\":1}"), Err(KvError::Codec(m)) if m == "malformed input"));
    assert!(matches!(read_response(b"{\"Ok\":nul}"), Err(KvError::Codec(_))));
}

#[test]
fn frames_carry_a_big_endian_length() {
    assert_eq!(encode_frame(b"").unwrap(), vec![0, 0, 0, 0]);
    assert_eq!(encode_frame(b"abc").unwrap(), vec![0, 0, 0, 3, b'a', b'b', b'c']);
    let payload = vec![7u8; 0x01_02_03];
    let frame = encode_frame(&payload).unwrap();
    assert_eq!(&frame[..4], &[0, 1, 2, 3]);
    assert_eq!(payload_of(&frame), payload);
}

#[test]
fn partial_frames_ask_for_more() {
    assert!(decode_frame(b"").unwrap().is_none());
    assert!(decode_frame(&[0, 0, 0]).unwrap().is_none());
    assert!(decode_frame(&[0, 0, 0, 2, 1]).unwrap().is_none());
    let (payload, used) = decode_frame(&[0, 0, 0, 2, 1, 2, 9, 9]).unwrap().unwrap();
    assert_eq!(payload, vec![1, 2]);
    assert_eq!(used, 6);
}

#[test]
fn frames_beyond_the_cap_are_refused() {
    assert_eq!(MAX_FRAME, 8 * 1024 * 1024);
    assert!(encode_frame(&vec![0u8; MAX_FRAME]).is_ok());
    assert!(matches!(encode_frame(&vec![0u8; MAX_FRAME + 1]), Err(KvError::Codec(_))));
    assert!(decode_frame(&[0, 0x80, 0, 0]).unwrap().is_none());
    assert!(matches!(decode_frame(&[0, 0x80, 0, 1]), Err(KvError::Codec(_))));
    assert!(matches!(decode_frame(&[0xff, 0xff, 0xff, 0xff, 0]), Err(KvError::Codec(_))));
}

#[test]
fn server_keeps_its_engine_and_pool() {
    let engine = MapEngine::new();
    let server = KvServer::new(engine.clone(), InlinePool::new(1).unwrap());
    let mut handle = server.engine().clone();
    handle.set("k".to_string(), "v".to_string()).unwrap();
    let mut first = engine;
    assert_eq!(first.get("k".to_string()).unwrap(), Some("v".to_string()));
    let ran = Arc::new(Mutex::new(false));
    let flag = ran.clone();
    server.pool().spawn(move || *flag.lock().unwrap() = true);
    assert!(*ran.lock().unwrap());
}

#[test]
fn raw_bytes_become_text_or_utf8_error() {
    assert_eq!(found_text(None).unwrap(), None);
    assert_eq!(found_text(Some("h\u{e9}".as_bytes().to_vec())).unwrap(), Some("h\u{e9}".to_string()));
    assert!(matches!(found_text(Some(vec![0xff, 0xfe])), Err(KvError::Utf8(_))));
    assert!(removal_outcome(Some(vec![1])).is_ok());
    assert!(matches!(removal_outcome(None), Err(KvError::KeyNotFound)));
}

#[test]
fn error_messages() {
    assert_eq!(KvError::KeyNotFound.message(), "Key not found");
    assert_eq!(KvError::UnexpectedRecord.message(), "Unexpected command type");
    assert_eq!(KvError::Io("a".to_string()).message(), "a");
    assert_eq!(KvError::Codec("b".to_string()).message(), "b");
    assert_eq!(KvError::Utf8("c".to_string()).message(), "c");
    assert_eq!(KvError::PoolBuild("d".to_string()).message(), "d");
    assert_eq!(KvError::Remote("e".to_string()).message(), "e");
    assert_eq!(KvError::Other("f".to_string()).message(), "f");
    assert!(KvError::KeyNotFound.is_key_not_found());
    assert!(!KvError::UnexpectedRecord.is_key_not_found());
}

#[test]
fn stream_that_ends_inside_a_frame_is_an_error() {
    let mut buffer = FrameBuffer::new();
    assert!(buffer.finish().is_ok());
    buffer.push(&[0, 0, 0, 2, 1]);
    assert!(buffer.take_frame().unwrap().is_none());
    assert!(matches!(buffer.finish(), Err(KvError::Io(m)) if m == "bytes remaining on stream"));
    buffer.push(&[2, 0, 0]);
    assert_eq!(buffer.take_frame().unwrap(), Some(vec![1, 2]));
    assert!(buffer.take_frame().unwrap().is_none());
    buffer.push(&[0, 0]);
    assert_eq!(buffer.take_frame().unwrap(), Some(vec![]));
    assert!(buffer.finish().is_ok());
}

#[test]
fn oversized_frame_leaves_the_buffer_alone() {
    let mut buffer = FrameBuffer::new();
    buffer.push(&[0, 0x80, 0, 1, 5]);
    assert!(matches!(buffer.take_frame(), Err(KvError::Codec(_))));
    assert!(matches!(buffer.take_frame(), Err(KvError::Codec(_))));
    assert!(buffer.finish().is_err());
}
