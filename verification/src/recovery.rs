//! Rebuilding the index from the log files of a directory.

use crate::error::KvError;
use crate::index::{lookup, Index, RecordInfo};
use crate::json::Flaw;
use crate::record::{
    codec_error, command_is_faithful, encode_command, lemma_command_at_encoded, record_at, Command,
    CommandView,
};
use vstd::prelude::*;

verus! {

/// What a replay has gathered: the index so far and the bytes of dead
/// records so far.
pub ghost struct Tally {
    pub index: Map<Seq<char>, RecordInfo>,
    pub uncompacted: u64,
}

/// The length of the record that an index entry points to; 0 for none.
pub open spec fn length_of(found: Option<RecordInfo>) -> u64 {
    match found {
        Some(record) => record.length,
        None => 0,
    }
}

/// Adds `more` dead bytes to `total`; the count stops at `u64::MAX`.
pub open spec fn add_dead(total: u64, more: u64) -> u64 {
    if total + more > u64::MAX {
        u64::MAX
    } else {
        (total + more) as u64
    }
}

/// The effect of a `Set` record at `place`: the key points there, and the
/// record it pointed to before is dead.
pub open spec fn put_entry(tally: Tally, key: Seq<char>, place: RecordInfo) -> Tally {
    Tally {
        index: tally.index.insert(key, place),
        uncompacted: add_dead(tally.uncompacted, length_of(lookup(tally.index, key))),
    }
}

/// The effect of a `Remove` record of `tombstone` bytes: the key is gone,
/// and both the record it pointed to and the `Remove` record are dead.
pub open spec fn drop_entry(tally: Tally, key: Seq<char>, tombstone: u64) -> Tally {
    Tally {
        index: tally.index.remove(key),
        uncompacted: add_dead(
            add_dead(tally.uncompacted, length_of(lookup(tally.index, key))),
            tombstone,
        ),
    }
}

/// The effect of `command`, found at `place`.
pub open spec fn apply(tally: Tally, command: CommandView, place: RecordInfo) -> Tally {
    match command {
        CommandView::Put(key, _) => put_entry(tally, key, place),
        CommandView::Remove(key) => drop_entry(tally, key, place.length),
    }
}

/// Replays the records of log `file_id` from position `from` on.
///
/// A record reaches from the end of the one before it to its own end.
/// The replay ends at the end of the log, or before a record that the
/// log ends in the middle of; it yields what it gathered and the length
/// of the part it read. It fails on bytes that cannot start a record.
pub open spec fn replay_from(tally: Tally, file_id: u64, bytes: Seq<u8>, from: int) -> Option<(Tally, int)>
    decreases bytes.len() - from,
{
    match record_at(bytes, from) {
        Ok(None) => Some((tally, bytes.len() as int)),
        Err(Flaw::Truncated) => Some((tally, from)),
        Err(Flaw::Malformed) => None,
        Ok(Some((command, end))) => if from < end <= bytes.len() {
            replay_from(
                apply(
                    tally,
                    command,
                    RecordInfo { file_id, offset: from as u64, length: (end - from) as u64 },
                ),
                file_id,
                bytes,
                end,
            )
        } else {
            None
        },
    }
}

/// Points `key` to `place` and counts the record it pointed to as dead.
pub fn record_put(index: &mut Index, uncompacted: &mut u64, key: String, place: RecordInfo)
    ensures
        (Tally { index: final(index)@, uncompacted: *final(uncompacted) }) == put_entry(
            Tally { index: old(index)@, uncompacted: *old(uncompacted) },
            key@,
            place,
        ),
{
    let dead: u64 = match index.insert(key, place) {
        Some(record) => record.length,
        None => 0,
    };
    *uncompacted = uncompacted.saturating_add(dead);
}

/// Takes `key` out and counts its record and the `tombstone` bytes of the
/// `Remove` record as dead.
pub fn record_removal(index: &mut Index, uncompacted: &mut u64, key: &str, tombstone: u64)
    ensures
        (Tally { index: final(index)@, uncompacted: *final(uncompacted) }) == drop_entry(
            Tally { index: old(index)@, uncompacted: *old(uncompacted) },
            key@,
            tombstone,
        ),
{
    let dead: u64 = match index.remove(key) {
        Some(record) => record.length,
        None => 0,
    };
    *uncompacted = uncompacted.saturating_add(dead).saturating_add(tombstone);
}

/// A recovery in progress: the log files replayed so far, oldest first.
pub struct Recovery {
    index: Index,
    files: Vec<u64>,
    uncompacted: u64,
    clean: u64,
}

impl Recovery {
    /// The index gathered so far.
    pub closed spec fn index(&self) -> Map<Seq<char>, RecordInfo> {
        self.index@
    }

    /// The ids of the logs replayed so far.
    pub closed spec fn files(&self) -> Seq<u64> {
        self.files@
    }

    /// The dead bytes counted so far.
    pub closed spec fn uncompacted(&self) -> u64 {
        self.uncompacted
    }

    /// The length of the part of the last log that holds whole records.
    pub closed spec fn clean(&self) -> u64 {
        self.clean
    }

    /// What has been gathered so far.
    pub open spec fn tally(&self) -> Tally {
        Tally { index: self.index(), uncompacted: self.uncompacted() }
    }

    /// Whether the logs replayed so far came oldest first.
    pub open spec fn wf(&self) -> bool {
        forall|i: int, j: int| 0 <= i < j < self.files().len() ==> self.files()[i] < self.files()[j]
    }

    /// Whether `file_id` may be replayed next: it is newer than every log
    /// replayed so far.
    pub open spec fn accepts(&self, file_id: u64) -> bool {
        self.files().len() > 0 ==> self.files().last() < file_id
    }

    /// A recovery that has replayed nothing.
    pub fn new() -> (recovery: Recovery)
        ensures
            recovery.index() == Map::<Seq<char>, RecordInfo>::empty(),
            recovery.files() == Seq::<u64>::empty(),
            recovery.uncompacted() == 0,
            recovery.clean() == 0,
            recovery.wf(),
    {
        Recovery { index: Index::new(), files: Vec::new(), uncompacted: 0, clean: 0 }
    }

    /// Takes the recovery apart: index, logs, dead bytes, clean length.
    pub(crate) fn into_parts(self) -> (parts: (Index, Vec<u64>, u64, u64))
        ensures
            parts.0@ == self.index(),
            parts.1@ == self.files(),
            parts.2 == self.uncompacted(),
            parts.3 == self.clean(),
    {
        (self.index, self.files, self.uncompacted, self.clean)
    }

    /// Replays the whole of log `file_id`, whose content is `bytes`.
    ///
    /// Logs are replayed oldest first: a `file_id` that is not newer than
    /// the last one is refused, and nothing changes. A log that holds
    /// bytes which cannot start a record fails the recovery with `Codec`.
    /// Otherwise the records of the log are applied in order, and the
    /// result is the length of the part that holds whole records: less
    /// than the length of `bytes` only where the log ends in the middle of
    /// a record.
    pub fn replay(&mut self, file_id: u64, bytes: &[u8]) -> (read: Result<u64, KvError>)
        requires
            old(self).wf(),
        ensures
            final(self).wf(),
            match read {
                Ok(clean) => {
                    &&& old(self).accepts(file_id)
                    &&& replay_from(old(self).tally(), file_id, bytes@, 0) == Some(
                        (final(self).tally(), clean as int),
                    )
                    &&& final(self).files() == old(self).files().push(file_id)
                    &&& final(self).clean() == clean
                    &&& clean <= bytes@.len()
                },
                Err(KvError::Other(_)) => !old(self).accepts(file_id) && *final(self) == *old(self),
                Err(KvError::Codec(_)) => {
                    &&& old(self).accepts(file_id)
                    &&& replay_from(old(self).tally(), file_id, bytes@, 0) is None
                    &&& final(self).files() == old(self).files()
                },
                Err(_) => false,
            },
    {
        if self.files.len() > 0 && self.files[self.files.len() - 1] >= file_id {
            return Err(KvError::Other("log files are not in ascending order".to_string()));
        }
        let ghost start = self.tally();
        let total: usize = bytes.len();
        let mut at: usize = 0;
        let mut clean: usize = total;
        loop
            invariant
                total == bytes@.len(),
                at <= total,
                old(self).accepts(file_id),
                old(self).wf(),
                start == old(self).tally(),
                self.files == old(self).files,
                replay_from(self.tally(), file_id, bytes@, at as int) == replay_from(start, file_id, bytes@, 0),
            ensures
                clean <= total,
                old(self).accepts(file_id),
                old(self).wf(),
                start == old(self).tally(),
                replay_from(start, file_id, bytes@, 0) == Some((self.tally(), clean as int)),
                self.files == old(self).files,
            decreases total - at,
        {
            match Command::next_in(bytes, at) {
                Ok(None) => {
                    clean = total;
                    break;
                },
                Err(Flaw::Truncated) => {
                    clean = at;
                    break;
                },
                Err(Flaw::Malformed) => {
                    return Err(codec_error(Flaw::Malformed));
                },
                Ok(Some((command, end))) => {
                    let place = RecordInfo::new(file_id, at as u64, (end - at) as u64);
                    match command {
                        Command::Put(key, _) => {
                            record_put(&mut self.index, &mut self.uncompacted, key, place);
                        },
                        Command::Remove(key) => {
                            record_removal(&mut self.index, &mut self.uncompacted, key.as_str(), place.length);
                        },
                    }
                    at = end;
                },
            }
        }
        self.files.push(file_id);
        self.clean = clean as u64;
        Ok(clean as u64)
    }
}

/// The log that holds the encodings of `commands`, back to back.
pub open spec fn log_of(commands: Seq<CommandView>) -> Seq<u8>
    decreases commands.len(),
{
    if commands.len() == 0 {
        Seq::empty()
    } else {
        encode_command(commands[0]) + log_of(commands.skip(1))
    }
}

/// What a writer has gathered after it appended `commands` to log
/// `file_id` from offset `from` on and published each of them.
pub open spec fn written(tally: Tally, file_id: u64, from: int, commands: Seq<CommandView>) -> Tally
    decreases commands.len(),
{
    if commands.len() == 0 {
        tally
    } else {
        let length = encode_command(commands[0]).len() as int;
        written(
            apply(tally, commands[0], RecordInfo { file_id, offset: from as u64, length: length as u64 }),
            file_id,
            from + length,
            commands.skip(1),
        )
    }
}

/// Replay rebuilds what the writer had: where the rest of a log from
/// `from` on is what a writer appended for `commands`, replaying it
/// gathers exactly what that writer gathered by publishing them, and
/// reads the log to its end.
pub proof fn law_replay_rebuilds(
    tally: Tally,
    file_id: u64,
    bytes: Seq<u8>,
    from: int,
    commands: Seq<CommandView>,
)
    requires
        forall|i: int| 0 <= i < commands.len() ==> command_is_faithful(#[trigger] commands[i]),
        0 <= from <= bytes.len(),
        bytes.subrange(from, bytes.len() as int) == log_of(commands),
    ensures
        replay_from(tally, file_id, bytes, from) == Some(
            (written(tally, file_id, from, commands), bytes.len() as int),
        ),
    decreases commands.len(),
{
    if commands.len() == 0 {
        assert(bytes.subrange(from, bytes.len() as int).len() == 0);
    } else {
        let first = commands[0];
        let rest = commands.skip(1);
        let encoded = encode_command(first);
        let tail = bytes.subrange(from, bytes.len() as int);
        assert(tail == encoded + log_of(rest));
        assert(encoded.len() > 0);
        assert(bytes.subrange(from, from + encoded.len()) =~= encoded) by {
            assert forall|i: int| 0 <= i < encoded.len() implies bytes.subrange(from, from + encoded.len())[i]
                == encoded[i] by {
                assert(tail[i] == encoded[i]);
            }
        }
        lemma_command_at_encoded(bytes, from, first);
        let end = from + encoded.len();
        assert(bytes.subrange(end, bytes.len() as int) =~= log_of(rest)) by {
            assert forall|i: int| 0 <= i < bytes.len() - end implies bytes.subrange(end, bytes.len() as int)[i]
                == log_of(rest)[i] by {
                assert(tail[i + encoded.len()] == log_of(rest)[i]);
            }
        }
        assert forall|i: int| 0 <= i < rest.len() implies command_is_faithful(#[trigger] rest[i]) by {
            assert(rest[i] == commands[i + 1]);
        }
        let next = apply(
            tally,
            first,
            RecordInfo { file_id, offset: from as u64, length: encoded.len() as u64 },
        );
        law_replay_rebuilds(next, file_id, bytes, end, rest);
    }
}

/// A log grows by the encoding of what is appended to it.
pub proof fn lemma_log_of_push(commands: Seq<CommandView>, command: CommandView)
    ensures
        log_of(commands.push(command)) == log_of(commands) + encode_command(command),
    decreases commands.len(),
{
    let longer = commands.push(command);
    if commands.len() == 0 {
        assert(longer.skip(1) =~= Seq::<CommandView>::empty());
        assert(log_of(longer.skip(1)) =~= Seq::<u8>::empty());
        assert(log_of(longer) =~= encode_command(command));
        assert(log_of(commands) + encode_command(command) =~= encode_command(command));
    } else {
        assert(longer.skip(1) =~= commands.skip(1).push(command));
        lemma_log_of_push(commands.skip(1), command);
        assert(log_of(longer) =~= log_of(commands) + encode_command(command));
    }
}

/// Appending one more command and publishing it is one more step on top
/// of what was written before.
pub proof fn lemma_written_push(
    tally: Tally,
    file_id: u64,
    from: int,
    commands: Seq<CommandView>,
    command: CommandView,
)
    ensures
        written(tally, file_id, from, commands.push(command)) == apply(
            written(tally, file_id, from, commands),
            command,
            RecordInfo {
                file_id,
                offset: (from + log_of(commands).len()) as u64,
                length: encode_command(command).len() as u64,
            },
        ),
    decreases commands.len(),
{
    let longer = commands.push(command);
    if commands.len() == 0 {
        assert(longer.skip(1) =~= Seq::<CommandView>::empty());
        assert(longer[0] == command);
        assert(log_of(commands).len() == 0);
        assert(written(tally, file_id, from, commands) == tally);
        let length = encode_command(command).len() as int;
        let next = apply(tally, command, RecordInfo { file_id, offset: from as u64, length: length as u64 });
        assert(written(next, file_id, from + length, longer.skip(1)) == next);
    } else {
        assert(longer.skip(1) =~= commands.skip(1).push(command));
        assert(longer[0] == commands[0]);
        let first = commands[0];
        let length = encode_command(first).len() as int;
        let next = apply(tally, first, RecordInfo { file_id, offset: from as u64, length: length as u64 });
        lemma_written_push(next, file_id, from + length, commands.skip(1), command);
        assert(log_of(commands).len() == length + log_of(commands.skip(1)).len());
        assert(written(tally, file_id, from, longer) == written(next, file_id, from + length, longer.skip(1)));
        assert(written(tally, file_id, from, commands) == written(
            next,
            file_id,
            from + length,
            commands.skip(1),
        ));
        assert(from + length + log_of(commands.skip(1)).len() == from + log_of(commands).len());
    }
}

} // verus!
