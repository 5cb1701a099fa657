//! The messages that clients and the server exchange.

use vstd::prelude::*;

verus! {

/// What a client asks of the server.
#[derive(Debug)]
pub enum Request {
    /// Look the key up.
    Get(String),
    /// Bind the key to the value; written with the tag `Set`.
    Put(String, String),
    /// Delete the key.
    Remove(String),
}

/// What the server answers.
#[derive(Debug)]
pub enum Response {
    /// The request succeeded; a lookup carries the value it found.
    /// Written with the tag `Ok`.
    Done(Option<String>),
    /// The request failed with this message. Written with the tag `Err`.
    Failed(String),
}

/// A `Request` as plain text.
pub ghost enum RequestView {
    Get(Seq<char>),
    Put(Seq<char>, Seq<char>),
    Remove(Seq<char>),
}

/// A `Response` as plain text.
pub ghost enum ResponseView {
    Done(Option<Seq<char>>),
    Failed(Seq<char>),
}

impl View for Request {
    type V = RequestView;

    open spec fn view(&self) -> RequestView {
        match self {
            Request::Get(key) => RequestView::Get(key@),
            Request::Put(key, value) => RequestView::Put(key@, value@),
            Request::Remove(key) => RequestView::Remove(key@),
        }
    }
}

impl View for Response {
    type V = ResponseView;

    open spec fn view(&self) -> ResponseView {
        match self {
            Response::Done(Some(value)) => ResponseView::Done(Some(value@)),
            Response::Done(None) => ResponseView::Done(None),
            Response::Failed(message) => ResponseView::Failed(message@),
        }
    }
}

} // verus!
