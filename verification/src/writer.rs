//! The writer's bookkeeping: the active log, the index, the count of dead
//! bytes, and compaction.
//!
//! The writer decides and the caller acts. For a write, the writer draws
//! up the record, the caller appends it to the active log and flushes
//! it, and then the writer publishes the record in the index. For a compaction, the
//! writer draws up a plan, the caller copies the live records into the
//! compaction log as the plan says, and only then does the writer point
//! the index to the copies: a reader never finds an entry whose bytes are
//! not on disk yet.

use crate::error::KvError;
use crate::index::{lists, lookup, Index, IndexReader, RecordInfo};
use crate::record::{encode_command, Command, CommandView};
use crate::recovery::{drop_entry, put_entry, record_put, record_removal, Recovery, Tally};
use vstd::prelude::*;

verus! {

/// Compaction is due once this many bytes of the logs are dead.
pub const COMPACTION_THRESHOLD: u64 = 1048576;

/// The bytes that the first `count` records of `listing` take up.
pub open spec fn bytes_before(listing: Seq<(String, RecordInfo)>, count: int) -> int
    decreases count,
{
    if count <= 0 {
        0
    } else {
        bytes_before(listing, count - 1) + listing[count - 1].1.length
    }
}

/// A compaction that has been planned and not yet been carried out: the
/// live records, and where in the compaction log each of them goes.
pub struct CompactionPlan {
    target: u64,
    entries: Vec<(String, RecordInfo)>,
    offsets: Vec<u64>,
}

impl CompactionPlan {
    /// The id of the compaction log.
    pub closed spec fn spec_target(&self) -> u64 {
        self.target
    }

    /// The live records: key and present location.
    pub closed spec fn entries(&self) -> Seq<(String, RecordInfo)> {
        self.entries@
    }

    /// For each live record, the offset of its copy in the compaction log.
    pub closed spec fn offsets(&self) -> Seq<u64> {
        self.offsets@
    }

    /// The location of the copy of record `i`.
    pub open spec fn copy_of(&self, i: int) -> RecordInfo {
        RecordInfo {
            file_id: self.spec_target(),
            offset: self.offsets()[i],
            length: self.entries()[i].1.length,
        }
    }

    /// Whether this plan is the plan for an index that holds `index` while
    /// log `active` is the active one: it copies every live record once,
    /// back to back, into log `active + 1`.
    pub open spec fn fits(&self, index: Map<Seq<char>, RecordInfo>, active: u64) -> bool {
        &&& self.spec_target() == active + 1
        &&& active + 2 <= u64::MAX
        &&& lists(self.entries(), index)
        &&& self.offsets().len() == self.entries().len()
        &&& forall|i: int|
            0 <= i < self.entries().len() ==> #[trigger] self.offsets()[i] == bytes_before(self.entries(), i)
        &&& bytes_before(self.entries(), self.entries().len() as int) <= u64::MAX
    }

    /// The id of the compaction log.
    pub fn target(&self) -> (target: u64)
        ensures
            target == self.spec_target(),
    {
        self.target
    }

    /// The number of records to copy.
    pub fn len(&self) -> (count: usize)
        ensures
            count == self.entries().len(),
    {
        self.entries.len()
    }

    /// The present location of record `i`.
    pub fn source(&self, i: usize) -> (source: RecordInfo)
        requires
            i < self.entries().len(),
        ensures
            source == self.entries()[i as int].1,
    {
        self.entries[i].1
    }

    /// The offset in the compaction log at which the copy of record `i`
    /// starts.
    pub fn target_offset(&self, i: usize) -> (offset: u64)
        requires
            i < self.offsets().len(),
        ensures
            offset == self.offsets()[i as int],
    {
        self.offsets[i]
    }
}

/// What a finished compaction leaves to do and to know.
pub struct Compacted {
    /// The new safe point: readers drop their handles on older logs.
    pub safe_point: u64,
    /// The logs to delete.
    pub stale: Vec<u64>,
    /// The id of the new active log, which is empty.
    pub active: u64,
}

/// The single writer of a store.
pub struct KvWriter {
    index: Index,
    files: Vec<u64>,
    current_file_id: u64,
    offset: u64,
    uncompacted: u64,
    pending: Option<CompactionPlan>,
}

impl KvWriter {
    /// The index.
    pub closed spec fn index(&self) -> Map<Seq<char>, RecordInfo> {
        self.index@
    }

    /// The ids of the logs on disk, oldest first.
    pub closed spec fn files(&self) -> Seq<u64> {
        self.files@
    }

    /// The id of the active log.
    pub closed spec fn active(&self) -> u64 {
        self.current_file_id
    }

    /// The length of the active log: where the next record starts.
    pub closed spec fn offset(&self) -> u64 {
        self.offset
    }

    /// The bytes of dead records on disk.
    pub closed spec fn uncompacted(&self) -> u64 {
        self.uncompacted
    }

    /// The compaction that is planned, if one is.
    pub closed spec fn plan(&self) -> Option<CompactionPlan> {
        self.pending
    }

    /// The index and the count of dead bytes.
    pub open spec fn tally(&self) -> Tally {
        Tally { index: self.index(), uncompacted: self.uncompacted() }
    }

    /// Validity: the active log is the newest log on disk, and a planned
    /// compaction is the plan for the index as it stands.
    pub open spec fn wf(&self) -> bool {
        &&& self.files().len() > 0
        &&& self.files().last() == self.active()
        &&& forall|i: int| 0 <= i < self.files().len() ==> #[trigger] self.files()[i] <= self.active()
        &&& self.plan() matches Some(plan) ==> plan.fits(self.index(), self.active())
    }

    /// The id of the active log.
    pub fn current_file_id(&self) -> (id: u64)
        ensures
            id == self.active(),
    {
        self.current_file_id
    }

    /// Where in the active log the next record starts.
    pub fn get_offset(&self) -> (offset: u64)
        ensures
            offset == self.offset(),
    {
        self.offset
    }

    /// The bytes of dead records on disk.
    pub fn dead_bytes(&self) -> (count: u64)
        ensures
            count == self.uncompacted(),
    {
        self.uncompacted
    }

    /// Whether `key` is live.
    pub fn contains_key(&self, key: &str) -> (live: bool)
        ensures
            live == self.index().contains_key(key@),
    {
        self.index.contains_key(key)
    }

    /// A handle on the index for a reader.
    pub fn reader(&self) -> IndexReader {
        self.index.reader()
    }

    /// The compaction that is planned, if one is.
    pub fn planned(&self) -> (plan: Option<&CompactionPlan>)
        ensures
            match plan {
                Some(p) => self.plan() == Some(*p),
                None => self.plan() is None,
            },
    {
        self.pending.as_ref()
    }

    /// Whether a record of `length` bytes still fits into the active log.
    pub open spec fn fits(&self, length: nat) -> bool {
        self.offset() + length <= u64::MAX
    }

    /// Draws up the record for `set(key, value)`, which the caller appends
    /// to the active log. Fails with `Other` where the active log has no
    /// room for the record.
    pub fn stage_set(&self, key: &str, value: &str) -> (record: Result<Vec<u8>, KvError>)
        ensures
            match record {
                Ok(bytes) => bytes@ == encode_command(CommandView::Put(key@, value@)) && self.fits(
                    bytes@.len(),
                ),
                Err(KvError::Other(_)) => !self.fits(encode_command(CommandView::Put(key@, value@)).len()),
                Err(_) => false,
            },
    {
        let bytes = Command::Put(key.to_string(), value.to_string()).encode();
        if bytes.len() as u64 > u64::MAX - self.offset {
            return Err(KvError::Other("the active log is full".to_string()));
        }
        Ok(bytes)
    }

    /// Draws up the record for `remove(key)`, which the caller appends to
    /// the active log. Fails with `KeyNotFound` where `key` is not live,
    /// and with `Other` where the active log has no room for the record.
    pub fn stage_remove(&self, key: &str) -> (record: Result<Vec<u8>, KvError>)
        ensures
            match record {
                Ok(bytes) => {
                    &&& self.index().contains_key(key@)
                    &&& bytes@ == encode_command(CommandView::Remove(key@))
                    &&& self.fits(bytes@.len())
                },
                Err(KvError::KeyNotFound) => !self.index().contains_key(key@),
                Err(KvError::Other(_)) => self.index().contains_key(key@) && !self.fits(
                    encode_command(CommandView::Remove(key@)).len(),
                ),
                Err(_) => false,
            },
    {
        if !self.index.contains_key(key) {
            return Err(KvError::KeyNotFound);
        }
        let bytes = Command::Remove(key.to_string()).encode();
        if bytes.len() as u64 > u64::MAX - self.offset {
            return Err(KvError::Other("the active log is full".to_string()));
        }
        Ok(bytes)
    }

    /// Publishes a `Set` record for `key` that now lies in the last
    /// `length` bytes of the active log.
    ///
    /// The key points to the record, the record that it pointed to before
    /// counts as dead, and the result says whether compaction is due. A
    /// planned compaction is given up.
    pub fn commit_set(&mut self, key: String, length: u64) -> (due: bool)
        requires
            old(self).wf(),
            old(self).offset() + length <= u64::MAX,
        ensures
            final(self).wf(),
            final(self).tally() == put_entry(
                old(self).tally(),
                key@,
                RecordInfo { file_id: old(self).active(), offset: old(self).offset(), length },
            ),
            final(self).offset() == old(self).offset() + length,
            final(self).active() == old(self).active(),
            final(self).files() == old(self).files(),
            final(self).plan() is None,
            due == (final(self).uncompacted() >= COMPACTION_THRESHOLD),
    {
        let place = RecordInfo::new(self.current_file_id, self.offset, length);
        record_put(&mut self.index, &mut self.uncompacted, key, place);
        self.offset = self.offset + length;
        self.pending = None;
        self.uncompacted >= COMPACTION_THRESHOLD
    }

    /// Publishes a `Remove` record for `key` that now lies in the last
    /// `length` bytes of the active log.
    ///
    /// Fails with `KeyNotFound`, and changes nothing, where `key` is not
    /// live. Otherwise the key is gone, its record and the `Remove` record
    /// count as dead, and the result says whether compaction is due. A
    /// planned compaction is given up.
    pub fn commit_remove(&mut self, key: &str, length: u64) -> (due: Result<bool, KvError>)
        requires
            old(self).wf(),
            old(self).offset() + length <= u64::MAX,
        ensures
            final(self).wf(),
            match due {
                Ok(due) => {
                    &&& old(self).index().contains_key(key@)
                    &&& final(self).tally() == drop_entry(old(self).tally(), key@, length)
                    &&& final(self).offset() == old(self).offset() + length
                    &&& final(self).active() == old(self).active()
                    &&& final(self).files() == old(self).files()
                    &&& final(self).plan() is None
                    &&& due == (final(self).uncompacted() >= COMPACTION_THRESHOLD)
                },
                Err(KvError::KeyNotFound) => !old(self).index().contains_key(key@) && *final(self) == *old(self),
                Err(_) => false,
            },
    {
        if !self.index.contains_key(key) {
            return Err(KvError::KeyNotFound);
        }
        record_removal(&mut self.index, &mut self.uncompacted, key, length);
        self.offset = self.offset + length;
        self.pending = None;
        Ok(self.uncompacted >= COMPACTION_THRESHOLD)
    }
}

/// The more records are counted, the more bytes they take up.
pub proof fn lemma_bytes_before_grows(listing: Seq<(String, RecordInfo)>, fewer: int, more: int)
    requires
        0 <= fewer <= more,
    ensures
        bytes_before(listing, fewer) <= bytes_before(listing, more),
    decreases more - fewer,
{
    if fewer < more {
        lemma_bytes_before_grows(listing, fewer, more - 1);
    }
}

impl KvWriter {
    /// Plans a compaction: every live record is to be copied, one behind
    /// the other, into a log that is one newer than the active log.
    ///
    /// The plan is kept until `finish_compaction` carries it out or a
    /// write gives it up. Planning fails, and no plan is kept, only where
    /// two more log ids do not exist or where the live records together
    /// are longer than a log can be.
    pub fn plan_compaction(&mut self) -> (planned: Result<(), KvError>)
        requires
            old(self).wf(),
        ensures
            final(self).wf(),
            final(self).tally() == old(self).tally(),
            final(self).offset() == old(self).offset(),
            final(self).active() == old(self).active(),
            final(self).files() == old(self).files(),
            match planned {
                Ok(_) => final(self).plan() is Some,
                Err(KvError::Other(_)) => {
                    &&& final(self).plan() is None
                    &&& old(self).active() + 2 > u64::MAX || exists|listing: Seq<(String, RecordInfo)>|
                        lists(listing, old(self).index()) && #[trigger] bytes_before(
                            listing,
                            listing.len() as int,
                        ) > u64::MAX
                },
                Err(_) => false,
            },
    {
        self.pending = None;
        if self.current_file_id > u64::MAX - 2 {
            return Err(KvError::Other("log file ids are used up".to_string()));
        }
        let entries = self.index.entries();
        let mut offsets: Vec<u64> = Vec::new();
        let mut total: u64 = 0;
        let mut i: usize = 0;
        while i < entries.len()
            invariant
                self.wf(),
                self.pending is None,
                self.tally() == old(self).tally(),
                self.offset() == old(self).offset(),
                self.active() == old(self).active(),
                self.files() == old(self).files(),
                lists(entries@, self.index@),
                i <= entries@.len(),
                offsets@.len() == i,
                total == bytes_before(entries@, i as int),
                forall|j: int| 0 <= j < i ==> #[trigger] offsets@[j] == bytes_before(entries@, j),
            decreases entries@.len() - i,
        {
            offsets.push(total);
            match total.checked_add(entries[i].1.length) {
                Some(next) => {
                    total = next;
                },
                None => {
                    proof {
                        lemma_bytes_before_grows(entries@, i + 1, entries@.len() as int);
                    }
                    return Err(KvError::Other("live records exceed the size of a log".to_string()));
                },
            }
            i += 1;
        }
        let target: u64 = self.current_file_id + 1;
        self.pending = Some(CompactionPlan { target, entries, offsets });
        Ok(())
    }

    /// Carries out the planned compaction, once the caller has copied the
    /// live records into the compaction log as planned and flushed it.
    ///
    /// Every key keeps its entry, and every entry now points to the copy
    /// of its record in the compaction log. The log after the compaction
    /// log is the new active log; all older logs are stale and are handed
    /// back for deletion; no byte counts as dead. Where no compaction is
    /// planned, nothing changes and the result is `None`.
    pub fn finish_compaction(&mut self) -> (done: Option<Compacted>)
        requires
            old(self).wf(),
        ensures
            final(self).wf(),
            match done {
                None => old(self).plan() is None && *final(self) == *old(self),
                Some(compacted) => {
                    &&& old(self).plan() matches Some(plan)
                    &&& compacted.safe_point == plan.spec_target()
                    &&& compacted.stale@ == old(self).files()
                    &&& forall|i: int|
                        0 <= i < compacted.stale@.len() ==> #[trigger] compacted.stale@[i] < compacted.safe_point
                    &&& compacted.active == plan.spec_target() + 1
                    &&& final(self).active() == plan.spec_target() + 1
                    &&& final(self).files() == seq![plan.spec_target(), compacted.active]
                    &&& final(self).offset() == 0
                    &&& final(self).uncompacted() == 0
                    &&& final(self).plan() is None
                    &&& final(self).index().dom() == old(self).index().dom()
                    &&& forall|i: int|
                        0 <= i < plan.entries().len() ==> final(self).index()[(#[trigger] plan.entries()[i]).0@]
                            == plan.copy_of(i)
                    &&& forall|key: Seq<char>| #[trigger]
                        final(self).index().contains_key(key) ==> {
                            &&& final(self).index()[key].file_id == plan.spec_target()
                            &&& final(self).index()[key].length == old(self).index()[key].length
                        }
                },
            },
    {
        let mut taken: Option<CompactionPlan> = None;
        core::mem::swap(&mut self.pending, &mut taken);
        let plan = match taken {
            None => { return None; },
            Some(plan) => plan,
        };
        let ghost before = old(self).index();
        let ghost all = plan.entries@;
        let ghost places = plan.offsets@;
        let target: u64 = plan.target;
        let mut entries = plan.entries;
        let mut offsets = plan.offsets;
        while entries.len() > 0
            invariant
                lists(all, before),
                places.len() == all.len(),
                entries@.len() <= all.len(),
                entries@ == all.subrange(0, entries@.len() as int),
                offsets@ == places.subrange(0, entries@.len() as int),
                self.index@.dom() == before.dom(),
                self.files == old(self).files,
                self.current_file_id == old(self).current_file_id,
                self.pending is None,
                forall|i: int| 0 <= i < entries@.len() ==> self.index@[(#[trigger] all[i]).0@] == all[i].1,
                forall|i: int|
                    entries@.len() <= i < all.len() ==> self.index@[(#[trigger] all[i]).0@] == (RecordInfo {
                        file_id: target,
                        offset: places[i],
                        length: all[i].1.length,
                    }),
            decreases entries@.len(),
        {
            let ghost last = entries@.len() - 1;
            let entry = entries.pop().unwrap();
            let offset = offsets.pop().unwrap();
            let ghost index_before = self.index@;
            assert(entry == all[last]);
            assert(offset == places[last]);
            assert(before.contains_key(all[last].0@));
            self.index.insert(entry.0, RecordInfo::new(target, offset, entry.1.length));
            proof {
                assert(self.index@.dom() =~= before.dom());
                assert forall|i: int| 0 <= i < entries@.len() implies self.index@[(#[trigger] all[i]).0@]
                    == all[i].1 by {
                    assert(all[i].0@ != all[last].0@);
                    assert(index_before[all[i].0@] == all[i].1);
                }
                assert forall|i: int| entries@.len() <= i < all.len() implies self.index@[(
                #[trigger] all[i]).0@] == (RecordInfo {
                    file_id: target,
                    offset: places[i],
                    length: all[i].1.length,
                }) by {
                    if i != last {
                        assert(all[last].0@ != all[i].0@);
                    }
                }
            }
        }
        proof {
            assert forall|key: Seq<char>| #[trigger] self.index@.contains_key(key) implies {
                &&& self.index@[key].file_id == target
                &&& self.index@[key].length == before[key].length
            } by {
                assert(before.contains_key(key));
                let i = choose|i: int| 0 <= i < all.len() && (#[trigger] all[i]).0@ == key;
                assert(lookup(before, all[i].0@) == Some(all[i].1));
            }
        }
        let mut stale: Vec<u64> = Vec::new();
        core::mem::swap(&mut self.files, &mut stale);
        self.files.push(target);
        self.files.push(target + 1);
        self.current_file_id = target + 1;
        self.offset = 0;
        self.uncompacted = 0;
        proof {
            assert(self.files@ =~= seq![target, (target + 1) as u64]);
        }
        Some(Compacted { safe_point: target, stale, active: target + 1 })
    }
}

impl Recovery {
    /// Ends the recovery: the newest log replayed becomes the active log,
    /// and writing goes on behind its last whole record. Where no log was
    /// replayed, log 0 is the active log, and it is empty.
    pub fn finish(self) -> (writer: KvWriter)
        requires
            self.wf(),
        ensures
            writer.wf(),
            writer.tally() == self.tally(),
            writer.plan() is None,
            self.files().len() > 0 ==> {
                &&& writer.files() == self.files()
                &&& writer.active() == self.files().last()
                &&& writer.offset() == self.clean()
            },
            self.files().len() == 0 ==> {
                &&& writer.files() == seq![0u64]
                &&& writer.active() == 0
                &&& writer.offset() == 0
            },
    {
        let (index, files, uncompacted, clean) = self.into_parts();
        if files.len() == 0 {
            let mut first: Vec<u64> = Vec::new();
            first.push(0);
            KvWriter { index, files: first, current_file_id: 0, offset: 0, uncompacted, pending: None }
        } else {
            let newest: u64 = files[files.len() - 1];
            KvWriter { index, files, current_file_id: newest, offset: clean, uncompacted, pending: None }
        }
    }
}

} // verus!
