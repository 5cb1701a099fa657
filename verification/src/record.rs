//! The records of a log file: `{"Set":[key,value]}` and `{"Remove":key}`,
//! written back to back.

use crate::error::KvError;
use crate::json::{
    either_flaw, keyed_at, lemma_keyed_at_differs, lemma_pair_message_at, lemma_single_message_at,
    merge_flaws, opening_at, pair_at, pair_message, quotes_faithfully, read_key, read_opening,
    read_pair, read_single, single_at, single_message, skip_space, skip_space_from, write_pair,
    write_single, Flaw,
};
use vstd::prelude::*;

verus! {

/// One entry of a log file.
#[derive(Debug)]
pub enum Command {
    /// The key now maps to the value; written with the tag `Set`.
    Put(String, String),
    /// The key is now absent.
    Remove(String),
}

/// A `Command` as plain text.
pub ghost enum CommandView {
    Put(Seq<char>, Seq<char>),
    Remove(Seq<char>),
}

impl View for Command {
    type V = CommandView;

    open spec fn view(&self) -> CommandView {
        match self {
            Command::Put(key, value) => CommandView::Put(key@, value@),
            Command::Remove(key) => CommandView::Remove(key@),
        }
    }
}

/// `"Set"`, quotes included.
pub open spec fn set_tag() -> Seq<u8> {
    seq![0x22u8, 0x53u8, 0x65u8, 0x74u8, 0x22u8]
}

/// `"Remove"`, quotes included.
pub open spec fn remove_tag() -> Seq<u8> {
    seq![0x22u8, 0x52u8, 0x65u8, 0x6du8, 0x6fu8, 0x76u8, 0x65u8, 0x22u8]
}

/// The bytes that stand for `command` in a log file.
pub open spec fn encode_command(command: CommandView) -> Seq<u8> {
    match command {
        CommandView::Put(key, value) => pair_message(set_tag(), key, value),
        CommandView::Remove(key) => single_message(remove_tag(), key),
    }
}

/// Reads one command that starts at or after `from` (blanks may precede
/// it) and yields it with the position after its closing `}`.
pub open spec fn command_at(bytes: Seq<u8>, from: int) -> Result<(CommandView, int), Flaw> {
    match opening_at(bytes, from) {
        Err(flaw) => Err(flaw),
        Ok(at) => match keyed_at(bytes, at, set_tag()) {
            Ok(body) => match pair_at(bytes, body) {
                Ok(((key, value), end)) => Ok((CommandView::Put(key, value), end)),
                Err(flaw) => Err(flaw),
            },
            Err(first) => match keyed_at(bytes, at, remove_tag()) {
                Ok(body) => match single_at(bytes, body) {
                    Ok((key, end)) => Ok((CommandView::Remove(key), end)),
                    Err(flaw) => Err(flaw),
                },
                Err(second) => Err(either_flaw(first, second)),
            },
        },
    }
}

/// The next record of a log at or after `from`: `Ok(None)` where only
/// blanks are left.
pub open spec fn record_at(bytes: Seq<u8>, from: int) -> Result<Option<(CommandView, int)>, Flaw> {
    if skip_space(bytes, from) >= bytes.len() {
        Ok(None)
    } else {
        match command_at(bytes, from) {
            Ok(found) => Ok(Some(found)),
            Err(flaw) => Err(flaw),
        }
    }
}

/// Reads `bytes` as exactly one command; only blanks may surround it.
pub open spec fn decode_command(bytes: Seq<u8>) -> Result<CommandView, Flaw> {
    match command_at(bytes, 0) {
        Err(flaw) => Err(flaw),
        Ok((command, end)) => if skip_space(bytes, end) >= bytes.len() {
            Ok(command)
        } else {
            Err(Flaw::Malformed)
        },
    }
}

/// What a lookup makes of the bytes that the index points to: the value
/// of a `Put`, `UnexpectedRecord` for a `Remove`, `Codec` for anything
/// that is not one command.
pub open spec fn value_of(bytes: Seq<u8>) -> Result<Seq<char>, ValueFlaw> {
    match decode_command(bytes) {
        Ok(CommandView::Put(_, value)) => Ok(value),
        Ok(CommandView::Remove(_)) => Err(ValueFlaw::NotAPut),
        Err(_) => Err(ValueFlaw::Unreadable),
    }
}

/// Why the bytes of a record yield no value.
pub ghost enum ValueFlaw {
    /// The bytes hold a command, but not a `Put`.
    NotAPut,
    /// The bytes do not hold one command.
    Unreadable,
}

fn set_tag_bytes() -> (tag: Vec<u8>)
    ensures
        tag@ == set_tag(),
{
    let tag = vec![0x22u8, 0x53u8, 0x65u8, 0x74u8, 0x22u8];
    proof {
        assert(tag@ =~= set_tag());
    }
    tag
}

fn remove_tag_bytes() -> (tag: Vec<u8>)
    ensures
        tag@ == remove_tag(),
{
    let tag = vec![0x22u8, 0x52u8, 0x65u8, 0x6du8, 0x6fu8, 0x76u8, 0x65u8, 0x22u8];
    proof {
        assert(tag@ =~= remove_tag());
    }
    tag
}

/// The message that reports a flaw in a record or payload.
pub open spec fn flaw_text(flaw: Flaw) -> Seq<char> {
    match flaw {
        Flaw::Truncated => "unexpected end of input"@,
        Flaw::Malformed => "malformed input"@,
    }
}

/// Turns a flaw into the `Codec` error that reports it.
pub fn codec_error(flaw: Flaw) -> (error: KvError)
    ensures
        error matches KvError::Codec(text) && text@ == flaw_text(flaw),
{
    match flaw {
        Flaw::Truncated => KvError::Codec("unexpected end of input".to_string()),
        Flaw::Malformed => KvError::Codec("malformed input".to_string()),
    }
}

impl Command {
    /// Writes the command as it stands in a log file.
    pub fn encode(&self) -> (bytes: Vec<u8>)
        ensures
            bytes@ == encode_command(self@),
    {
        match self {
            Command::Put(key, value) => {
                let tag = set_tag_bytes();
                write_pair(tag.as_slice(), key.as_str(), value.as_str())
            },
            Command::Remove(key) => {
                let tag = remove_tag_bytes();
                write_single(tag.as_slice(), key.as_str())
            },
        }
    }

    /// Reads one command that starts at or after `from`.
    pub fn read_at(bytes: &[u8], from: usize) -> (found: Result<(Command, usize), Flaw>)
        requires
            from <= bytes@.len(),
        ensures
            match found {
                Ok((command, n)) => command_at(bytes@, from as int) == Ok::<(CommandView, int), Flaw>(
                    (command@, n as int),
                ) && from < n <= bytes@.len(),
                Err(flaw) => command_at(bytes@, from as int) == Err::<(CommandView, int), Flaw>(flaw),
            },
    {
        let at = match read_opening(bytes, from) {
            Ok(at) => at,
            Err(flaw) => { return Err(flaw); },
        };
        let set_tag = set_tag_bytes();
        match read_key(bytes, at, set_tag.as_slice()) {
            Ok(body) => match read_pair(bytes, body) {
                Ok((key, value, end)) => Ok((Command::Put(key, value), end)),
                Err(flaw) => Err(flaw),
            },
            Err(first) => {
                let remove_tag = remove_tag_bytes();
                match read_key(bytes, at, remove_tag.as_slice()) {
                    Ok(body) => match read_single(bytes, body) {
                        Ok((key, end)) => Ok((Command::Remove(key), end)),
                        Err(flaw) => Err(flaw),
                    },
                    Err(second) => Err(merge_flaws(first, second)),
                }
            },
        }
    }

    /// Reads the next record of a log at or after `from`; `Ok(None)` at
    /// the end of the log.
    pub fn next_in(bytes: &[u8], from: usize) -> (found: Result<Option<(Command, usize)>, Flaw>)
        requires
            from <= bytes@.len(),
        ensures
            match found {
                Ok(Some((command, n))) => record_at(bytes@, from as int) == Ok::<
                    Option<(CommandView, int)>,
                    Flaw,
                >(Some((command@, n as int))) && from < n <= bytes@.len(),
                Ok(None) => record_at(bytes@, from as int) == Ok::<Option<(CommandView, int)>, Flaw>(None),
                Err(flaw) => record_at(bytes@, from as int) == Err::<Option<(CommandView, int)>, Flaw>(flaw),
            },
    {
        if skip_space_from(bytes, from) >= bytes.len() {
            return Ok(None);
        }
        match Command::read_at(bytes, from) {
            Ok(found) => Ok(Some(found)),
            Err(flaw) => Err(flaw),
        }
    }

    /// Reads `bytes` as exactly one command.
    pub fn decode(bytes: &[u8]) -> (found: Result<Command, Flaw>)
        ensures
            match found {
                Ok(command) => decode_command(bytes@) == Ok::<CommandView, Flaw>(command@),
                Err(flaw) => decode_command(bytes@) == Err::<CommandView, Flaw>(flaw),
            },
    {
        match Command::read_at(bytes, 0) {
            Err(flaw) => Err(flaw),
            Ok((command, end)) => if skip_space_from(bytes, end) >= bytes.len() {
                Ok(command)
            } else {
                Err(Flaw::Malformed)
            },
        }
    }
}

/// Takes the value out of the bytes that the index points to.
///
/// The bytes must hold one `Put` command; a `Remove` there means that the
/// log and the index disagree.
pub fn read_value(bytes: &[u8]) -> (value: Result<Option<String>, KvError>)
    ensures
        match value {
            Ok(Some(text)) => value_of(bytes@) == Ok::<Seq<char>, ValueFlaw>(text@),
            Ok(None) => false,
            Err(KvError::UnexpectedRecord) => value_of(bytes@) == Err::<Seq<char>, ValueFlaw>(ValueFlaw::NotAPut),
            Err(KvError::Codec(text)) => decode_command(bytes@) matches Err(flaw) && text@ == flaw_text(flaw),
            Err(_) => false,
        },
{
    match Command::decode(bytes) {
        Ok(Command::Put(_, value)) => Ok(Some(value)),
        Ok(Command::Remove(_)) => Err(KvError::UnexpectedRecord),
        Err(flaw) => Err(codec_error(flaw)),
    }
}

/// Whether every text of `command` survives quoting and unquoting.
pub open spec fn command_is_faithful(command: CommandView) -> bool {
    match command {
        CommandView::Put(key, value) => quotes_faithfully(key) && quotes_faithfully(value),
        CommandView::Remove(key) => quotes_faithfully(key),
    }
}

/// Where the encoding of a command lies at `from`, whatever follows it,
/// reading a command there gives that command and stops right after it.
pub proof fn lemma_command_at_encoded(bytes: Seq<u8>, from: int, command: CommandView)
    requires
        command_is_faithful(command),
        0 <= from,
        from + encode_command(command).len() <= bytes.len(),
        bytes.subrange(from, from + encode_command(command).len()) == encode_command(command),
    ensures
        command_at(bytes, from) == Ok::<(CommandView, int), Flaw>(
            (command, from + encode_command(command).len()),
        ),
        skip_space(bytes, from) == from,
        encode_command(command).len() > 0,
{
    assert(bytes[from] == bytes.subrange(from, from + encode_command(command).len())[0]);
    match command {
        CommandView::Put(key, value) => {
            lemma_pair_message_at(bytes, from, set_tag(), key, value);
        },
        CommandView::Remove(key) => {
            lemma_single_message_at(bytes, from, remove_tag(), key);
            assert(bytes[from + 2] == remove_tag()[1]);
            lemma_keyed_at_differs(bytes, from + 1, set_tag(), 1);
        },
    }
}

/// Decoding what was encoded gives the command back.
pub proof fn law_command_round_trip(command: CommandView)
    requires
        command_is_faithful(command),
    ensures
        decode_command(encode_command(command)) == Ok::<CommandView, Flaw>(command),
{
    let bytes = encode_command(command);
    assert(bytes.subrange(0, bytes.len() as int) =~= bytes);
    lemma_command_at_encoded(bytes, 0, command);
}

} // verus!
