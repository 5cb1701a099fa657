//! Which engine serves a directory: the one named on the command line,
//! unless the directory records another.

use crate::error::KvError;
use vstd::prelude::*;

verus! {

/// The engines that a server can run on.
#[derive(Clone, Copy, Debug, PartialEq, Eq, Structural)]
pub enum Engine {
    /// The log-structured engine of this crate.
    Kvs,
    /// An embedded ordered-key store.
    Sled,
}

/// The default where neither the command line nor the directory names an
/// engine.
pub open spec fn default_engine() -> Engine {
    Engine::Kvs
}

/// The name under which a directory records `engine`.
pub open spec fn engine_name(engine: Engine) -> Seq<char> {
    match engine {
        Engine::Kvs => "kvs"@,
        Engine::Sled => "sled"@,
    }
}

/// The engine that a directory records by `text`, if `text` is the name
/// of one.
pub open spec fn named_engine(text: Seq<char>) -> Option<Engine> {
    if text == engine_name(Engine::Kvs) {
        Some(Engine::Kvs)
    } else if text == engine_name(Engine::Sled) {
        Some(Engine::Sled)
    } else {
        None
    }
}

/// The engine to run: the one asked for, else the one recorded, else the
/// default; `None` where one was asked for and another is recorded.
pub open spec fn selected(asked: Option<Engine>, recorded: Option<Engine>) -> Option<Engine> {
    match (asked, recorded) {
        (None, None) => Some(default_engine()),
        (None, Some(engine)) => Some(engine),
        (Some(engine), None) => Some(engine),
        (Some(engine), Some(other)) => if engine == other {
            Some(engine)
        } else {
            None
        },
    }
}

impl Engine {
    /// The name under which a directory records this engine.
    pub fn name(self) -> (text: String)
        ensures
            text@ == engine_name(self),
    {
        match self {
            Engine::Kvs => "kvs".to_string(),
            Engine::Sled => "sled".to_string(),
        }
    }

    /// Reads the record of a directory. Text that names no engine counts
    /// as no record.
    pub fn named(text: &str) -> (engine: Option<Engine>)
        ensures
            engine == named_engine(text@),
    {
        let text = text.to_string();
        if text == Engine::Kvs.name() {
            Some(Engine::Kvs)
        } else if text == Engine::Sled.name() {
            Some(Engine::Sled)
        } else {
            None
        }
    }
}

/// Settles which engine to run. Fails where the command line asks for one
/// engine and the directory records another.
pub fn select_engine(asked: Option<Engine>, recorded: Option<Engine>) -> (engine: Result<Engine, KvError>)
    ensures
        match engine {
            Ok(engine) => selected(asked, recorded) == Some(engine),
            Err(KvError::Other(_)) => selected(asked, recorded) is None,
            Err(_) => false,
        },
{
    match (asked, recorded) {
        (None, None) => Ok(Engine::Kvs),
        (None, Some(engine)) => Ok(engine),
        (Some(engine), None) => Ok(engine),
        (Some(engine), Some(other)) => {
            if engine == other {
                Ok(engine)
            } else {
                Err(KvError::Other("engine type not match".to_string()))
            }
        },
    }
}

/// A name is read back as the engine that it is the name of.
pub proof fn law_engine_name_round_trip(engine: Engine)
    ensures
        named_engine(engine_name(engine)) == Some(engine),
{
    reveal_strlit("kvs");
    reveal_strlit("sled");
    assert("kvs"@.len() != "sled"@.len());
}

} // verus!
