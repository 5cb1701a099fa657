//! What the server asks of a storage engine.

use crate::error::KvError;
use vstd::prelude::*;

verus! {

/// A key/value storage engine.
///
/// Handles are clones of one another: they share one logical store and
/// may be used from different threads at the same time. What one call
/// returns therefore depends on what other handles did in between. So
/// the trait fixes no behaviour of its own: each engine says in `sets`,
/// `gets` and `removes` what its calls may do, and the methods promise
/// that and no more. An engine that says nothing leaves the three at
/// `true`: then any outcome is allowed.
pub trait KvEngine: Clone + Send + 'static {
    /// Whether `set(key, value)` on the handle `before` may leave the
    /// handle as `after` and end in `outcome`.
    open spec fn sets(
        before: Self,
        key: Seq<char>,
        value: Seq<char>,
        after: Self,
        outcome: Result<(), KvError>,
    ) -> bool {
        true
    }

    /// Whether `get(key)` on the handle `before` may leave the handle as
    /// `after` and end in `outcome`.
    open spec fn gets(before: Self, key: Seq<char>, after: Self, outcome: Result<Option<String>, KvError>) -> bool {
        true
    }

    /// Whether `remove(key)` on the handle `before` may leave the handle
    /// as `after` and end in `outcome`.
    open spec fn removes(before: Self, key: Seq<char>, after: Self, outcome: Result<(), KvError>) -> bool {
        true
    }

    /// Binds `key` to `value`, replacing any earlier value.
    fn set(&mut self, key: String, value: String) -> (outcome: Result<(), KvError>)
        ensures
            Self::sets(*old(self), key@, value@, *final(self), outcome),
    ;

    /// Looks `key` up; `None` where it is absent.
    fn get(&mut self, key: String) -> (outcome: Result<Option<String>, KvError>)
        ensures
            Self::gets(*old(self), key@, *final(self), outcome),
    ;

    /// Deletes `key`; fails with `KeyNotFound` where it is absent.
    fn remove(&mut self, key: String) -> (outcome: Result<(), KvError>)
        ensures
            Self::removes(*old(self), key@, *final(self), outcome),
    ;
}

/// `std::string::FromUtf8Error`, carried through unopened.
#[verifier::external_type_specification]
#[verifier::external_body]
pub struct ExFromUtf8Error(std::string::FromUtf8Error);

/// `String::from_utf8`: the text that `bytes` encode, or an error where
/// they are not UTF-8.
#[verifier::external_body]
fn text_of(bytes: Vec<u8>) -> (text: Result<String, std::string::FromUtf8Error>)
    ensures
        text is Ok <==> vstd::utf8::valid_utf8(bytes@),
        text matches Ok(t) ==> t@ == vstd::utf8::decode_utf8(bytes@),
{
    String::from_utf8(bytes)
}

/// `FromUtf8Error::to_string`: the error in words.
#[verifier::external_body]
fn utf8_error_text(error: &std::string::FromUtf8Error) -> String {
    error.to_string()
}

/// What a lookup in a store of raw bytes yields as text: nothing where
/// nothing was found, the text where the bytes are UTF-8, and `Utf8`
/// where they are not.
pub fn found_text(found: Option<Vec<u8>>) -> (value: Result<Option<String>, KvError>)
    ensures
        match value {
            Ok(None) => found is None,
            Ok(Some(text)) => found matches Some(bytes) && vstd::utf8::valid_utf8(bytes@) && text@
                == vstd::utf8::decode_utf8(bytes@),
            Err(KvError::Utf8(_)) => found matches Some(bytes) && !vstd::utf8::valid_utf8(bytes@),
            Err(_) => false,
        },
{
    match found {
        None => Ok(None),
        Some(bytes) => match text_of(bytes) {
            Ok(text) => Ok(Some(text)),
            Err(error) => Err(KvError::Utf8(utf8_error_text(&error))),
        },
    }
}

/// What a removal in a store of raw bytes yields: success where the key
/// had a value, `KeyNotFound` where it had none.
pub fn removal_outcome(removed: Option<Vec<u8>>) -> (outcome: Result<(), KvError>)
    ensures
        match outcome {
            Ok(_) => removed is Some,
            Err(KvError::KeyNotFound) => removed is None,
            Err(_) => false,
        },
{
    match removed {
        Some(_) => Ok(()),
        None => Err(KvError::KeyNotFound),
    }
}

} // verus!
