//! The store as a whole, on paper: log files, index and active log, and
//! what `get`, `set`, `remove` and compaction do to them. The laws of
//! this module tie what the writer publishes to what a reader finds.

use crate::index::{lists, lookup, RecordInfo};
use crate::json::quotes_faithfully;
use crate::record::{
    command_is_faithful, encode_command, law_command_round_trip, value_of, CommandView, ValueFlaw,
};
use crate::recovery::{
    drop_entry, law_replay_rebuilds, lemma_log_of_push, lemma_written_push, log_of, put_entry,
    replay_from, written, Tally,
};
use crate::writer::{bytes_before, lemma_bytes_before_grows, KvWriter};
use vstd::prelude::*;

verus! {

/// The bytes that `place` points to.
pub open spec fn bytes_at(files: Map<u64, Seq<u8>>, place: RecordInfo) -> Seq<u8> {
    files[place.file_id].subrange(place.offset as int, place.offset + place.length)
}

/// Whether the bytes that `place` points to exist.
pub open spec fn in_bounds(files: Map<u64, Seq<u8>>, place: RecordInfo) -> bool {
    files.contains_key(place.file_id) && place.offset + place.length <= files[place.file_id].len()
}

/// A store: the content of each log file, what the writer has gathered,
/// and the id of the active log.
pub ghost struct Store {
    pub files: Map<u64, Seq<u8>>,
    pub tally: Tally,
    pub active: u64,
}

impl Store {
    /// Whether the active log exists.
    pub open spec fn wf(self) -> bool {
        self.files.contains_key(self.active)
    }

    /// Whether there is room in the active log for `record`.
    pub open spec fn has_room(self, record: Seq<u8>) -> bool {
        self.files[self.active].len() + record.len() <= u64::MAX
    }

    /// Whether the store holds exactly `contents`: the live keys are the
    /// keys of `contents`, and the entry of each points to a `Set` record
    /// of that key with its value.
    pub open spec fn holds(self, contents: Map<Seq<char>, Seq<char>>) -> bool {
        &&& self.tally.index.dom() == contents.dom()
        &&& forall|key: Seq<char>| #[trigger]
            self.tally.index.contains_key(key) ==> {
                &&& in_bounds(self.files, self.tally.index[key])
                &&& bytes_at(self.files, self.tally.index[key]) == encode_command(
                    CommandView::Put(key, contents[key]),
                )
            }
    }

    /// What a lookup of `key` yields: nothing for a key that is not live,
    /// else what the bytes that its entry points to hold.
    pub open spec fn get(self, key: Seq<char>) -> Result<Option<Seq<char>>, ValueFlaw> {
        match lookup(self.tally.index, key) {
            None => Ok(None),
            Some(place) => match value_of(bytes_at(self.files, place)) {
                Ok(value) => Ok(Some(value)),
                Err(flaw) => Err(flaw),
            },
        }
    }

    /// The store after `record` was appended to the active log.
    pub open spec fn appended(self, record: Seq<u8>) -> Map<u64, Seq<u8>> {
        self.files.insert(self.active, self.files[self.active] + record)
    }

    /// The entry for a record of `length` bytes appended to the active log.
    pub open spec fn next_place(self, length: nat) -> RecordInfo {
        RecordInfo {
            file_id: self.active,
            offset: self.files[self.active].len() as u64,
            length: length as u64,
        }
    }

    /// The store after `set(key, value)`: the record is appended and
    /// published.
    pub open spec fn set(self, key: Seq<char>, value: Seq<char>) -> Store {
        let record = encode_command(CommandView::Put(key, value));
        Store {
            files: self.appended(record),
            tally: put_entry(self.tally, key, self.next_place(record.len())),
            active: self.active,
        }
    }

    /// The store after `remove(key)`, or `None` where `key` is not live
    /// and the removal fails with `KeyNotFound`.
    pub open spec fn remove(self, key: Seq<char>) -> Option<Store> {
        if self.tally.index.contains_key(key) {
            let record = encode_command(CommandView::Remove(key));
            Some(
                Store {
                    files: self.appended(record),
                    tally: drop_entry(self.tally, key, record.len() as u64),
                    active: self.active,
                },
            )
        } else {
            None
        }
    }
}

impl Store {
    /// Whether `writer` keeps the books of this store: it has gathered
    /// what the store has, writes to the same log, and stands at the end
    /// of it.
    pub open spec fn kept_by(self, writer: KvWriter) -> bool {
        &&& writer.tally() == self.tally
        &&& writer.active() == self.active
        &&& writer.offset() == self.files[self.active].len()
    }
}

/// What `commit_set` does to the writer is what `set` does to the store:
/// a writer that keeps the books of a store keeps those of the store
/// after `set`, once it has published the record that was appended.
pub proof fn law_commit_set_is_set(
    store: Store,
    before: KvWriter,
    after: KvWriter,
    key: Seq<char>,
    value: Seq<char>,
)
    requires
        store.kept_by(before),
        store.has_room(encode_command(CommandView::Put(key, value))),
        after.tally() == put_entry(
            before.tally(),
            key,
            RecordInfo {
                file_id: before.active(),
                offset: before.offset(),
                length: encode_command(CommandView::Put(key, value)).len() as u64,
            },
        ),
        after.offset() == before.offset() + encode_command(CommandView::Put(key, value)).len(),
        after.active() == before.active(),
    ensures
        store.set(key, value).kept_by(after),
{
}

/// What `commit_remove` does to the writer is what `remove` does to the
/// store.
pub proof fn law_commit_remove_is_remove(store: Store, before: KvWriter, after: KvWriter, key: Seq<char>)
    requires
        store.kept_by(before),
        store.has_room(encode_command(CommandView::Remove(key))),
        store.tally.index.contains_key(key),
        after.tally() == drop_entry(
            before.tally(),
            key,
            encode_command(CommandView::Remove(key)).len() as u64,
        ),
        after.offset() == before.offset() + encode_command(CommandView::Remove(key)).len(),
        after.active() == before.active(),
    ensures
        store.remove(key) matches Some(next) && next.kept_by(after),
{
}

/// Appending to the active log moves no byte that an entry points to.
pub proof fn lemma_append_keeps_bytes(store: Store, record: Seq<u8>, place: RecordInfo)
    requires
        store.wf(),
        in_bounds(store.files, place),
    ensures
        in_bounds(store.appended(record), place),
        bytes_at(store.appended(record), place) == bytes_at(store.files, place),
{
    if place.file_id == store.active {
        let before = store.files[store.active];
        let after = before + record;
        assert(after.subrange(place.offset as int, place.offset + place.length) =~= before.subrange(
            place.offset as int,
            place.offset + place.length,
        ));
    }
}

/// `set` keeps the store in step with its contents: a store that holds
/// `contents` holds `contents` with `key` bound to `value` afterwards.
pub proof fn law_set_holds(
    store: Store,
    contents: Map<Seq<char>, Seq<char>>,
    key: Seq<char>,
    value: Seq<char>,
)
    requires
        store.wf(),
        store.holds(contents),
        store.has_room(encode_command(CommandView::Put(key, value))),
    ensures
        store.set(key, value).wf(),
        store.set(key, value).holds(contents.insert(key, value)),
{
    let record = encode_command(CommandView::Put(key, value));
    let after = store.set(key, value);
    let place = store.next_place(record.len());
    assert(after.tally.index.dom() =~= contents.insert(key, value).dom());
    assert forall|other: Seq<char>| #[trigger] after.tally.index.contains_key(other) implies {
        &&& in_bounds(after.files, after.tally.index[other])
        &&& bytes_at(after.files, after.tally.index[other]) == encode_command(
            CommandView::Put(other, contents.insert(key, value)[other]),
        )
    } by {
        if other == key {
            let log = store.files[store.active];
            assert((log + record).subrange(log.len() as int, (log.len() + record.len()) as int) =~= record);
        } else {
            assert(store.tally.index.contains_key(other));
            lemma_append_keeps_bytes(store, record, store.tally.index[other]);
        }
    }
}

/// `remove` keeps the store in step with its contents: a store that
/// holds `contents` holds `contents` without `key` afterwards.
pub proof fn law_remove_holds(store: Store, contents: Map<Seq<char>, Seq<char>>, key: Seq<char>)
    requires
        store.wf(),
        store.holds(contents),
        store.tally.index.contains_key(key),
    ensures
        store.remove(key) matches Some(after) && after.wf() && after.holds(contents.remove(key)),
{
    let record = encode_command(CommandView::Remove(key));
    let after = store.remove(key).unwrap();
    assert(after.tally.index.dom() =~= contents.remove(key).dom());
    assert forall|other: Seq<char>| #[trigger] after.tally.index.contains_key(other) implies {
        &&& in_bounds(after.files, after.tally.index[other])
        &&& bytes_at(after.files, after.tally.index[other]) == encode_command(
            CommandView::Put(other, contents.remove(key)[other]),
        )
    } by {
        assert(store.tally.index.contains_key(other));
        lemma_append_keeps_bytes(store, record, store.tally.index[other]);
    }
}

/// A lookup reads the contents: in a store that holds `contents`, `get`
/// yields the value of a live key and nothing for any other key.
pub proof fn law_get_reads(store: Store, contents: Map<Seq<char>, Seq<char>>, key: Seq<char>)
    requires
        store.holds(contents),
        contents.contains_key(key) ==> quotes_faithfully(key) && quotes_faithfully(contents[key]),
    ensures
        store.get(key) == (if contents.contains_key(key) {
            Ok::<Option<Seq<char>>, ValueFlaw>(Some(contents[key]))
        } else {
            Ok::<Option<Seq<char>>, ValueFlaw>(None)
        }),
{
    if contents.contains_key(key) {
        assert(store.tally.index.contains_key(key));
        law_command_round_trip(CommandView::Put(key, contents[key]));
    } else {
        assert(!store.tally.index.contains_key(key));
    }
}

/// After `set(key, value)`, a lookup of `key` yields `value`.
pub proof fn law_get_after_set(
    store: Store,
    contents: Map<Seq<char>, Seq<char>>,
    key: Seq<char>,
    value: Seq<char>,
)
    requires
        store.wf(),
        store.holds(contents),
        store.has_room(encode_command(CommandView::Put(key, value))),
        quotes_faithfully(key),
        quotes_faithfully(value),
    ensures
        store.set(key, value).get(key) == Ok::<Option<Seq<char>>, ValueFlaw>(Some(value)),
{
    law_set_holds(store, contents, key, value);
    law_get_reads(store.set(key, value), contents.insert(key, value), key);
}

/// After `remove(key)` succeeded, a lookup of `key` yields nothing and a
/// second `remove(key)` fails; and `remove` of a key that is not live
/// fails to begin with.
pub proof fn law_get_after_remove(store: Store, contents: Map<Seq<char>, Seq<char>>, key: Seq<char>)
    requires
        store.wf(),
        store.holds(contents),
    ensures
        store.remove(key) is Some <==> contents.contains_key(key),
        store.remove(key) matches Some(after) ==> {
            &&& after.get(key) == Ok::<Option<Seq<char>>, ValueFlaw>(None)
            &&& after.remove(key) is None
        },
{
    assert(store.tally.index.dom() == contents.dom());
    assert(store.tally.index.contains_key(key) <==> contents.contains_key(key));
}

/// The compaction log after the first `count` records of `listing` were
/// copied into it, one behind the other.
pub open spec fn compaction_log(
    files: Map<u64, Seq<u8>>,
    listing: Seq<(String, RecordInfo)>,
    count: int,
) -> Seq<u8>
    decreases count,
{
    if count <= 0 {
        Seq::empty()
    } else {
        compaction_log(files, listing, count - 1) + bytes_at(files, listing[count - 1].1)
    }
}

/// Where the copy of record `i` lies in the compaction log.
pub open spec fn copy_place(listing: Seq<(String, RecordInfo)>, target: u64, i: int) -> RecordInfo {
    RecordInfo { file_id: target, offset: bytes_before(listing, i) as u64, length: listing[i].1.length }
}

/// The copy of record `i` lies in the compaction log where the plan says,
/// and it is the record byte for byte.
pub proof fn lemma_copy_is_record(
    files: Map<u64, Seq<u8>>,
    listing: Seq<(String, RecordInfo)>,
    count: int,
    i: int,
)
    requires
        0 <= i < count <= listing.len(),
        forall|j: int| 0 <= j < listing.len() ==> in_bounds(files, (#[trigger] listing[j]).1),
    ensures
        compaction_log(files, listing, count).len() == bytes_before(listing, count),
        bytes_before(listing, i) + listing[i].1.length <= bytes_before(listing, count),
        compaction_log(files, listing, count).subrange(
            bytes_before(listing, i),
            bytes_before(listing, i) + listing[i].1.length,
        ) == bytes_at(files, listing[i].1),
    decreases count,
{
    let shorter = compaction_log(files, listing, count - 1);
    let last = bytes_at(files, listing[count - 1].1);
    assert(in_bounds(files, listing[count - 1].1));
    lemma_log_length(files, listing, count - 1);
    if i == count - 1 {
        assert((shorter + last).subrange(shorter.len() as int, (shorter.len() + last.len()) as int) =~= last);
    } else {
        lemma_copy_is_record(files, listing, count - 1, i);
        lemma_bytes_before_grows(listing, 0, i);
        let from = bytes_before(listing, i);
        let to = from + listing[i].1.length;
        assert((shorter + last).subrange(from, to) =~= shorter.subrange(from, to));
    }
}

/// The compaction log is as long as the records copied into it.
pub proof fn lemma_log_length(files: Map<u64, Seq<u8>>, listing: Seq<(String, RecordInfo)>, count: int)
    requires
        0 <= count <= listing.len(),
        forall|j: int| 0 <= j < listing.len() ==> in_bounds(files, (#[trigger] listing[j]).1),
    ensures
        compaction_log(files, listing, count).len() == bytes_before(listing, count),
    decreases count,
{
    if count > 0 {
        assert(in_bounds(files, listing[count - 1].1));
        lemma_log_length(files, listing, count - 1);
    }
}

/// The copy of record `i` is in bounds of the compaction log and holds
/// the bytes of the record.
proof fn lemma_copy_place(
    before: Map<u64, Seq<u8>>,
    after: Map<u64, Seq<u8>>,
    listing: Seq<(String, RecordInfo)>,
    target: u64,
    i: int,
)
    requires
        0 <= i < listing.len(),
        forall|j: int| 0 <= j < listing.len() ==> in_bounds(before, (#[trigger] listing[j]).1),
        bytes_before(listing, listing.len() as int) <= u64::MAX,
        after.contains_key(target),
        after[target] == compaction_log(before, listing, listing.len() as int),
    ensures
        in_bounds(after, copy_place(listing, target, i)),
        bytes_at(after, copy_place(listing, target, i)) == bytes_at(before, listing[i].1),
{
    lemma_copy_is_record(before, listing, listing.len() as int, i);
    lemma_bytes_before_grows(listing, 0, i);
    lemma_bytes_before_grows(listing, i, listing.len() as int);
}

/// Compaction keeps what the store holds: where the compaction log holds
/// the copies of the live records as planned, and every entry points to
/// the copy of its record, a lookup of any key yields after compaction
/// what it yielded before.
pub proof fn law_compaction_keeps_values(
    before: Store,
    after: Store,
    listing: Seq<(String, RecordInfo)>,
    target: u64,
    key: Seq<char>,
)
    requires
        lists(listing, before.tally.index),
        forall|j: int| 0 <= j < listing.len() ==> in_bounds(before.files, (#[trigger] listing[j]).1),
        bytes_before(listing, listing.len() as int) <= u64::MAX,
        after.files.contains_key(target),
        after.files[target] == compaction_log(before.files, listing, listing.len() as int),
        after.tally.index.dom() == before.tally.index.dom(),
        forall|i: int|
            0 <= i < listing.len() ==> after.tally.index[(#[trigger] listing[i]).0@] == copy_place(
                listing,
                target,
                i,
            ),
    ensures
        after.get(key) == before.get(key),
        after.tally.index.contains_key(key) ==> in_bounds(after.files, after.tally.index[key]),
{
    assert(after.tally.index.contains_key(key) <==> before.tally.index.contains_key(key));
    if before.tally.index.contains_key(key) {
        let i = choose|i: int| 0 <= i < listing.len() && (#[trigger] listing[i]).0@ == key;
        let entry = listing[i];
        assert(lookup(before.tally.index, entry.0@) == Some(entry.1));
        assert(before.tally.index[key] == entry.1);
        assert(after.tally.index[entry.0@] == copy_place(listing, target, i));
        lemma_copy_place(before.files, after.files, listing, target, i);
    }
}

/// Compaction keeps the store in step with its contents: a store that
/// held `contents` before holds `contents` afterwards, every entry now
/// pointing into the compaction log.
pub proof fn law_compaction_holds(
    before: Store,
    after: Store,
    listing: Seq<(String, RecordInfo)>,
    target: u64,
    contents: Map<Seq<char>, Seq<char>>,
)
    requires
        before.holds(contents),
        lists(listing, before.tally.index),
        bytes_before(listing, listing.len() as int) <= u64::MAX,
        after.files.contains_key(target),
        after.files[target] == compaction_log(before.files, listing, listing.len() as int),
        after.tally.index.dom() == before.tally.index.dom(),
        forall|i: int|
            0 <= i < listing.len() ==> after.tally.index[(#[trigger] listing[i]).0@] == copy_place(
                listing,
                target,
                i,
            ),
    ensures
        after.holds(contents),
        forall|key: Seq<char>| #[trigger]
            after.tally.index.contains_key(key) ==> after.tally.index[key].file_id == target,
{
    assert forall|j: int| 0 <= j < listing.len() implies in_bounds(before.files, (#[trigger] listing[j]).1) by {
        assert(lookup(before.tally.index, listing[j].0@) == Some(listing[j].1));
        assert(before.tally.index.contains_key(listing[j].0@));
    }
    assert forall|key: Seq<char>| #[trigger] after.tally.index.contains_key(key) implies {
        &&& in_bounds(after.files, after.tally.index[key])
        &&& bytes_at(after.files, after.tally.index[key]) == encode_command(
            CommandView::Put(key, contents[key]),
        )
        &&& after.tally.index[key].file_id == target
    } by {
        assert(before.tally.index.contains_key(key));
        let i = choose|i: int| 0 <= i < listing.len() && (#[trigger] listing[i]).0@ == key;
        let entry = listing[i];
        assert(lookup(before.tally.index, entry.0@) == Some(entry.1));
        assert(after.tally.index[entry.0@] == copy_place(listing, target, i));
        lemma_copy_place(before.files, after.files, listing, target, i);
    }
}

impl Store {
    /// Whether the active log holds exactly the records of `commands`,
    /// and the tally is what a writer that started from `start` gathered
    /// by publishing them.
    pub open spec fn logged(self, start: Tally, commands: Seq<CommandView>) -> bool {
        &&& self.files.contains_key(self.active)
        &&& self.files[self.active] == log_of(commands)
        &&& self.tally == written(start, self.active, 0, commands)
        &&& forall|i: int| 0 <= i < commands.len() ==> command_is_faithful(#[trigger] commands[i])
    }
}

/// `set` logs what it publishes: the active log and the tally stay in
/// step, with one more command.
pub proof fn law_set_is_logged(
    store: Store,
    start: Tally,
    commands: Seq<CommandView>,
    key: Seq<char>,
    value: Seq<char>,
)
    requires
        store.logged(start, commands),
        quotes_faithfully(key),
        quotes_faithfully(value),
    ensures
        store.set(key, value).logged(start, commands.push(CommandView::Put(key, value))),
{
    let command = CommandView::Put(key, value);
    let longer = commands.push(command);
    lemma_log_of_push(commands, command);
    lemma_written_push(start, store.active, 0, commands, command);
    assert forall|i: int| 0 <= i < longer.len() implies command_is_faithful(#[trigger] longer[i]) by {
        if i < commands.len() {
            assert(longer[i] == commands[i]);
        }
    }
}

/// `remove` logs what it publishes: the active log and the tally stay in
/// step, with one more command.
pub proof fn law_remove_is_logged(store: Store, start: Tally, commands: Seq<CommandView>, key: Seq<char>)
    requires
        store.logged(start, commands),
        store.tally.index.contains_key(key),
        quotes_faithfully(key),
    ensures
        store.remove(key) matches Some(after) && after.logged(start, commands.push(CommandView::Remove(key))),
{
    let command = CommandView::Remove(key);
    let longer = commands.push(command);
    lemma_log_of_push(commands, command);
    lemma_written_push(start, store.active, 0, commands, command);
    assert forall|i: int| 0 <= i < longer.len() implies command_is_faithful(#[trigger] longer[i]) by {
        if i < commands.len() {
            assert(longer[i] == commands[i]);
        }
    }
}

/// Reopening finds what was there: replaying the active log of a store
/// whose writes were logged gathers the tally that the store had, index
/// and dead bytes alike, and reads the log to its end.
pub proof fn law_reopen_rebuilds(store: Store, start: Tally, commands: Seq<CommandView>)
    requires
        store.logged(start, commands),
    ensures
        replay_from(start, store.active, store.files[store.active], 0) == Some(
            (store.tally, store.files[store.active].len() as int),
        ),
{
    let log = store.files[store.active];
    assert(log.subrange(0, log.len() as int) =~= log);
    law_replay_rebuilds(start, store.active, log, 0, commands);
}

/// The `Set` records of the first `count` records of `listing`, with
/// the values that `contents` gives their keys.
pub open spec fn records_of(
    listing: Seq<(String, RecordInfo)>,
    contents: Map<Seq<char>, Seq<char>>,
    count: int,
) -> Seq<CommandView>
    decreases count,
{
    if count <= 0 {
        Seq::empty()
    } else {
        records_of(listing, contents, count - 1).push(
            CommandView::Put(listing[count - 1].0@, contents[listing[count - 1].0@]),
        )
    }
}

/// The index that points each of the first `count` keys of `listing` to
/// the copy of its record.
pub open spec fn copies(listing: Seq<(String, RecordInfo)>, target: u64, count: int) -> Map<
    Seq<char>,
    RecordInfo,
>
    decreases count,
{
    if count <= 0 {
        Map::empty()
    } else {
        copies(listing, target, count - 1).insert(listing[count - 1].0@, copy_place(listing, target, count - 1))
    }
}

/// Whether `listing` lists records of `files` that hold `contents`:
/// record `i` is the `Set` record of its key with the value of that key,
/// and no key is listed twice.
pub open spec fn lists_records(
    files: Map<u64, Seq<u8>>,
    listing: Seq<(String, RecordInfo)>,
    contents: Map<Seq<char>, Seq<char>>,
) -> bool {
    &&& forall|i: int|
        0 <= i < listing.len() ==> {
            &&& in_bounds(files, (#[trigger] listing[i]).1)
            &&& bytes_at(files, listing[i].1) == encode_command(
                CommandView::Put(listing[i].0@, contents[listing[i].0@]),
            )
            &&& quotes_faithfully(listing[i].0@)
            &&& quotes_faithfully(contents[listing[i].0@])
        }
    &&& forall|i: int, j: int|
        0 <= i < j < listing.len() ==> (#[trigger] listing[i]).0@ != (#[trigger] listing[j]).0@
}

/// Each of the first `count` keys listed has its copy in `copies`.
proof fn lemma_copies_has(listing: Seq<(String, RecordInfo)>, target: u64, count: int, i: int)
    requires
        0 <= i < count <= listing.len(),
        forall|a: int, b: int|
            0 <= a < b < listing.len() ==> (#[trigger] listing[a]).0@ != (#[trigger] listing[b]).0@,
    ensures
        copies(listing, target, count).contains_key(listing[i].0@),
        copies(listing, target, count)[listing[i].0@] == copy_place(listing, target, i),
    decreases count,
{
    if i < count - 1 {
        lemma_copies_has(listing, target, count - 1, i);
        assert(listing[i].0@ != listing[count - 1].0@);
    }
}

/// Every key in `copies` is one of the first `count` keys listed.
proof fn lemma_copies_only(listing: Seq<(String, RecordInfo)>, target: u64, count: int, key: Seq<char>)
    requires
        0 <= count <= listing.len(),
        copies(listing, target, count).contains_key(key),
    ensures
        exists|i: int| 0 <= i < count && (#[trigger] listing[i]).0@ == key,
    decreases count,
{
    if count > 0 {
        if key == listing[count - 1].0@ {
            assert(listing[count - 1].0@ == key);
        } else {
            lemma_copies_only(listing, target, count - 1, key);
            let i = choose|i: int| 0 <= i < count - 1 && (#[trigger] listing[i]).0@ == key;
            assert(0 <= i < count && listing[i].0@ == key);
        }
    }
}

/// The compaction log is a log of `Set` records, and a writer that wrote
/// it into an empty store has the copies as its index and no dead byte.
proof fn lemma_compaction_log_is_log(
    files: Map<u64, Seq<u8>>,
    listing: Seq<(String, RecordInfo)>,
    contents: Map<Seq<char>, Seq<char>>,
    target: u64,
    count: int,
)
    requires
        0 <= count <= listing.len(),
        lists_records(files, listing, contents),
        bytes_before(listing, listing.len() as int) <= u64::MAX,
    ensures
        compaction_log(files, listing, count) == log_of(records_of(listing, contents, count)),
        compaction_log(files, listing, count).len() == bytes_before(listing, count),
        written(
            Tally { index: Map::empty(), uncompacted: 0 },
            target,
            0,
            records_of(listing, contents, count),
        ) == (Tally { index: copies(listing, target, count), uncompacted: 0 }),
        forall|i: int|
            0 <= i < records_of(listing, contents, count).len() ==> command_is_faithful(
                #[trigger] records_of(listing, contents, count)[i],
            ),
        records_of(listing, contents, count).len() == count,
    decreases count,
{
    let start = Tally { index: Map::empty(), uncompacted: 0 };
    if count <= 0 {
        assert(log_of(records_of(listing, contents, count)) =~= Seq::<u8>::empty());
        assert(written(start, target, 0, records_of(listing, contents, count)) == start);
    } else {
        lemma_compaction_log_is_log(files, listing, contents, target, count - 1);
        let shorter = records_of(listing, contents, count - 1);
        let entry = listing[count - 1];
        let command = CommandView::Put(entry.0@, contents[entry.0@]);
        assert(in_bounds(files, entry.1));
        assert(bytes_at(files, entry.1) == encode_command(command));
        assert(encode_command(command).len() == entry.1.length);
        lemma_log_of_push(shorter, command);
        lemma_written_push(start, target, 0, shorter, command);
        lemma_bytes_before_grows(listing, 0, count - 1);
        lemma_bytes_before_grows(listing, count - 1, listing.len() as int);
        let before = copies(listing, target, count - 1);
        assert(!before.contains_key(entry.0@)) by {
            if before.contains_key(entry.0@) {
                lemma_copies_only(listing, target, count - 1, entry.0@);
                let i = choose|i: int| 0 <= i < count - 1 && (#[trigger] listing[i]).0@ == entry.0@;
                assert(listing[i].0@ != listing[count - 1].0@);
            }
        }
        let longer = shorter.push(command);
        assert forall|i: int| 0 <= i < longer.len() implies command_is_faithful(#[trigger] longer[i]) by {
            if i < shorter.len() {
                assert(longer[i] == shorter[i]);
            }
        }
    }
}

/// Reopening after a compaction finds the compacted index: replaying the
/// compaction log into an empty store gathers exactly the index that
/// compaction left, with no dead byte.
pub proof fn law_compaction_log_replays(
    files: Map<u64, Seq<u8>>,
    listing: Seq<(String, RecordInfo)>,
    contents: Map<Seq<char>, Seq<char>>,
    target: u64,
    compacted: Map<Seq<char>, RecordInfo>,
)
    requires
        lists_records(files, listing, contents),
        bytes_before(listing, listing.len() as int) <= u64::MAX,
        forall|i: int|
            0 <= i < listing.len() ==> compacted.contains_key((#[trigger] listing[i]).0@) && compacted[listing[i].0@]
                == copy_place(listing, target, i),
        forall|key: Seq<char>| #[trigger]
            compacted.contains_key(key) ==> exists|i: int|
                0 <= i < listing.len() && (#[trigger] listing[i]).0@ == key,
    ensures
        replay_from(
            Tally { index: Map::empty(), uncompacted: 0 },
            target,
            compaction_log(files, listing, listing.len() as int),
            0,
        ) == Some(
            (
                Tally { index: compacted, uncompacted: 0 },
                compaction_log(files, listing, listing.len() as int).len() as int,
            ),
        ),
{
    let count = listing.len() as int;
    let log = compaction_log(files, listing, count);
    let start = Tally { index: Map::empty(), uncompacted: 0 };
    lemma_compaction_log_is_log(files, listing, contents, target, count);
    assert(copies(listing, target, count) =~= compacted) by {
        assert forall|key: Seq<char>| compacted.contains_key(key) implies #[trigger] copies(
            listing,
            target,
            count,
        ).contains_key(key) && copies(listing, target, count)[key] == compacted[key] by {
            let i = choose|i: int| 0 <= i < listing.len() && (#[trigger] listing[i]).0@ == key;
            lemma_copies_has(listing, target, count, i);
            assert(compacted[listing[i].0@] == copy_place(listing, target, i));
        }
        assert forall|key: Seq<char>| #[trigger]
            copies(listing, target, count).contains_key(key) implies compacted.contains_key(key) by {
            lemma_copies_only(listing, target, count, key);
            let i = choose|i: int| 0 <= i < count && (#[trigger] listing[i]).0@ == key;
            assert(compacted.contains_key(listing[i].0@));
        }
    }
    assert(log.subrange(0, log.len() as int) =~= log);
    law_replay_rebuilds(start, target, log, 0, records_of(listing, contents, count));
}

} // verus!
