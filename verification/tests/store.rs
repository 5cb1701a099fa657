use std::collections::HashMap;

use rust_kv::error::KvError;
use rust_kv::files::{log_file_name, sorted_log_ids};
use rust_kv::index::{Index, IndexReader, RecordInfo};
use rust_kv::record::{read_value, Command};
use rust_kv::recovery::Recovery;
use rust_kv::writer::{KvWriter, COMPACTION_THRESHOLD};

/// A store whose log files live in memory, driven the way a store on disk
/// drives the library.
struct MemStore {
    files: HashMap<u64, Vec<u8>>,
    writer: KvWriter,
    reader: IndexReader,
    safe_point: u64,
    compactions: usize,
}

impl MemStore {
    fn open(mut files: HashMap<u64, Vec<u8>>) -> Result<MemStore, KvError> {
        let names: Vec<Vec<u8>> = files.keys().map(|id| log_file_name(*id)).collect();
        let ids = sorted_log_ids(&names);
        let mut recovery = Recovery::new();
        for id in &ids {
            let clean = recovery.replay(*id, &files[id])?;
            files.get_mut(id).unwrap().truncate(clean as usize);
        }
        let writer = recovery.finish();
        files.entry(writer.current_file_id()).or_default();
        let reader = writer.reader();
        Ok(MemStore { files, writer, reader, safe_point: 0, compactions: 0 })
    }

    fn append(&mut self, record: &[u8]) -> u64 {
        let log = self.files.get_mut(&self.writer.current_file_id()).unwrap();
        assert_eq!(log.len() as u64, self.writer.get_offset());
        log.extend_from_slice(record);
        record.len() as u64
    }

    fn set(&mut self, key: &str, value: &str) -> Result<(), KvError> {
        let record = self.writer.stage_set(key, value)?;
        assert_eq!(record, Command::Put(key.to_string(), value.to_string()).encode());
        let length = self.append(&record);
        if self.writer.commit_set(key.to_string(), length) {
            self.compact()?;
        }
        Ok(())
    }

    fn get(&self, key: &str) -> Result<Option<String>, KvError> {
        match self.reader.get(key) {
            None => Ok(None),
            Some(place) => read_value(self.bytes_at(place)),
        }
    }

    fn remove(&mut self, key: &str) -> Result<(), KvError> {
        let record = self.writer.stage_remove(key)?;
        assert_eq!(record, Command::Remove(key.to_string()).encode());
        let length = self.append(&record);
        if self.writer.commit_remove(key, length)? {
            self.compact()?;
        }
        Ok(())
    }

    fn bytes_at(&self, place: RecordInfo) -> &[u8] {
        let from = place.offset as usize;
        &self.files[&place.file_id][from..from + place.length as usize]
    }

    fn compact(&mut self) -> Result<(), KvError> {
        self.writer.plan_compaction()?;
        let plan = self.writer.planned().unwrap();
        let mut log: Vec<u8> = Vec::new();
        for i in 0..plan.len() {
            assert_eq!(log.len() as u64, plan.target_offset(i));
            log.extend_from_slice(self.bytes_at(plan.source(i)));
        }
        let target = plan.target();
        self.files.insert(target, log);
        let done = self.writer.finish_compaction().unwrap();
        assert_eq!(done.safe_point, target);
        for id in &done.stale {
            assert!(*id < done.safe_point);
            self.files.remove(id);
        }
        self.files.insert(done.active, Vec::new());
        self.safe_point = done.safe_point;
        self.compactions += 1;
        Ok(())
    }

    fn size(&self) -> usize {
        self.files.values().map(|log| log.len()).sum()
    }
}

#[test]
fn get_returns_what_set_stored() {
    let mut store = MemStore::open(HashMap::new()).unwrap();
    store.set("k1", "v1").unwrap();
    assert_eq!(store.get("k1").unwrap(), Some("v1".to_string()));
    assert_eq!(store.get("k2").unwrap(), None);
}

#[test]
fn last_write_wins_and_survives_reopening() {
    let mut store = MemStore::open(HashMap::new()).unwrap();
    store.set("k1", "v1").unwrap();
    store.set("k1", "v2").unwrap();
    assert_eq!(store.get("k1").unwrap(), Some("v2".to_string()));
    let reopened = MemStore::open(store.files.clone()).unwrap();
    assert_eq!(reopened.get("k1").unwrap(), Some("v2".to_string()));
    assert_eq!(reopened.writer.dead_bytes(), store.writer.dead_bytes());
    assert_eq!(reopened.writer.get_offset(), store.writer.get_offset());
}

#[test]
fn removed_key_is_absent_and_cannot_be_removed_again() {
    let mut store = MemStore::open(HashMap::new()).unwrap();
    store.set("k1", "v1").unwrap();
    store.remove("k1").unwrap();
    assert_eq!(store.get("k1").unwrap(), None);
    assert!(matches!(store.remove("k1"), Err(KvError::KeyNotFound)));
    let reopened = MemStore::open(store.files.clone()).unwrap();
    assert_eq!(reopened.get("k1").unwrap(), None);
}

#[test]
fn commit_remove_of_absent_key_changes_nothing() {
    let mut writer = Recovery::new().finish();
    writer.commit_set("a".to_string(), 10);
    let outcome = writer.commit_remove("b", 7);
    assert!(matches!(outcome, Err(KvError::KeyNotFound)));
    assert_eq!(writer.get_offset(), 10);
    assert_eq!(writer.dead_bytes(), 0);
    assert!(writer.contains_key("a"));
}

#[test]
fn dead_bytes_count_overwritten_and_removed_records() {
    let mut writer = Recovery::new().finish();
    assert_eq!(writer.current_file_id(), 0);
    assert!(!writer.commit_set("a".to_string(), 10));
    assert_eq!(writer.dead_bytes(), 0);
    assert!(!writer.commit_set("a".to_string(), 12));
    assert_eq!(writer.dead_bytes(), 10);
    assert_eq!(writer.commit_remove("a", 5).unwrap(), false);
    assert_eq!(writer.dead_bytes(), 10 + 12 + 5);
    assert_eq!(writer.get_offset(), 27);
}

#[test]
fn compaction_is_due_at_the_threshold() {
    let mut writer = Recovery::new().finish();
    assert_eq!(COMPACTION_THRESHOLD, 1024 * 1024);
    writer.commit_set("a".to_string(), COMPACTION_THRESHOLD - 1);
    assert!(!writer.commit_set("a".to_string(), 1));
    assert_eq!(writer.dead_bytes(), COMPACTION_THRESHOLD - 1);
    assert!(writer.commit_set("a".to_string(), 1));
    assert_eq!(writer.dead_bytes(), COMPACTION_THRESHOLD);
}

#[test]
fn many_writes_trigger_compaction_and_stay_readable() {
    let mut store = MemStore::open(HashMap::new()).unwrap();
    let value = "x".repeat(60);
    for round in 0..3 {
        for i in 0..10_000 {
            store.set(&format!("key{}", i), &format!("{}{}", value, round)).unwrap();
        }
    }
    assert!(store.compactions > 0);
    assert!(store.size() < 4 * 1024 * 1024);
    for i in 0..10_000 {
        assert_eq!(store.get(&format!("key{}", i)).unwrap(), Some(format!("{}{}", value, 2)));
    }
    let reopened = MemStore::open(store.files.clone()).unwrap();
    for i in 0..10_000 {
        assert_eq!(reopened.get(&format!("key{}", i)).unwrap(), Some(format!("{}{}", value, 2)));
    }
}

#[test]
fn compaction_moves_every_entry_to_the_compaction_log() {
    let mut store = MemStore::open(HashMap::new()).unwrap();
    store.set("a", "1").unwrap();
    store.set("b", "2").unwrap();
    store.set("a", "3").unwrap();
    store.remove("b").unwrap();
    store.set("c", "4").unwrap();
    let active = store.writer.current_file_id();
    store.compact().unwrap();
    assert_eq!(store.safe_point, active + 1);
    assert_eq!(store.writer.current_file_id(), active + 2);
    assert_eq!(store.writer.get_offset(), 0);
    assert_eq!(store.writer.dead_bytes(), 0);
    let mut ids: Vec<u64> = store.files.keys().copied().collect();
    ids.sort();
    assert_eq!(ids, vec![active + 1, active + 2]);
    for key in ["a", "c"] {
        assert_eq!(store.reader.get(key).unwrap().file_id, active + 1);
    }
    assert_eq!(store.get("a").unwrap(), Some("3".to_string()));
    assert_eq!(store.get("b").unwrap(), None);
    assert_eq!(store.get("c").unwrap(), Some("4".to_string()));
    let log = &store.files[&(active + 1)];
    assert_eq!(log.len(), b"{\"Set\":[\"a\",\"3\"]}".len() * 2);
}

#[test]
fn finishing_without_a_plan_does_nothing() {
    let mut writer = Recovery::new().finish();
    writer.commit_set("a".to_string(), 10);
    assert!(writer.finish_compaction().is_none());
    assert_eq!(writer.current_file_id(), 0);
    writer.plan_compaction().unwrap();
    assert!(writer.planned().is_some());
    writer.commit_set("b".to_string(), 10);
    assert!(writer.planned().is_none());
    assert!(writer.finish_compaction().is_none());
}

#[test]
fn replay_gives_offsets_and_lengths_of_records() {
    let first = Command::Put("a".to_string(), "1".to_string()).encode();
    let second = Command::Put("b".to_string(), "22".to_string()).encode();
    let mut log = first.clone();
    log.extend_from_slice(&second);
    let mut recovery = Recovery::new();
    assert_eq!(recovery.replay(3, &log).unwrap(), log.len() as u64);
    let writer = recovery.finish();
    assert_eq!(writer.current_file_id(), 3);
    assert_eq!(writer.get_offset(), log.len() as u64);
    let reader = writer.reader();
    assert_eq!(reader.get("a"), Some(RecordInfo::new(3, 0, first.len() as u64)));
    assert_eq!(reader.get("b"), Some(RecordInfo::new(3, first.len() as u64, second.len() as u64)));
}

#[test]
fn replay_counts_dead_bytes() {
    let set = Command::Put("a".to_string(), "1".to_string()).encode();
    let remove = Command::Remove("a".to_string()).encode();
    let mut log = set.clone();
    log.extend_from_slice(&set);
    log.extend_from_slice(&remove);
    let mut recovery = Recovery::new();
    recovery.replay(0, &log).unwrap();
    let writer = recovery.finish();
    assert_eq!(writer.dead_bytes(), (set.len() * 2 + remove.len()) as u64);
    assert!(!writer.contains_key("a"));
}

#[test]
fn replay_drops_a_cut_off_last_record() {
    let whole = Command::Put("a".to_string(), "1".to_string()).encode();
    let mut log = whole.clone();
    log.extend_from_slice(b"{\"Set\":[\"b\",\"2");
    let mut recovery = Recovery::new();
    assert_eq!(recovery.replay(0, &log).unwrap(), whole.len() as u64);
    let writer = recovery.finish();
    assert!(writer.contains_key("a"));
    assert!(!writer.contains_key("b"));
    assert_eq!(writer.get_offset(), whole.len() as u64);
}

#[test]
fn replay_fails_on_corruption_in_the_middle() {
    let whole = Command::Put("a".to_string(), "1".to_string()).encode();
    let mut log = whole.clone();
    log.extend_from_slice(b"garbage");
    log.extend_from_slice(&whole);
    let mut recovery = Recovery::new();
    assert!(matches!(recovery.replay(0, &log), Err(KvError::Codec(_))));
}

#[test]
fn replay_refuses_logs_out_of_order() {
    let mut recovery = Recovery::new();
    recovery.replay(5, b"").unwrap();
    assert!(matches!(recovery.replay(5, b""), Err(KvError::Other(_))));
    assert!(matches!(recovery.replay(2, b""), Err(KvError::Other(_))));
    recovery.replay(6, b"").unwrap();
    assert_eq!(recovery.finish().current_file_id(), 6);
}

#[test]
fn newer_logs_override_older_ones() {
    let mut files = HashMap::new();
    files.insert(2u64, Command::Put("k".to_string(), "old".to_string()).encode());
    files.insert(10u64, Command::Put("k".to_string(), "new".to_string()).encode());
    let store = MemStore::open(files).unwrap();
    assert_eq!(store.get("k").unwrap(), Some("new".to_string()));
    assert_eq!(store.writer.current_file_id(), 10);
}

#[test]
fn index_replaces_and_removes_entries() {
    let mut index = Index::new();
    assert_eq!(index.insert("k".to_string(), RecordInfo::new(1, 2, 3)), None);
    assert_eq!(index.insert("k".to_string(), RecordInfo::new(4, 5, 6)), Some(RecordInfo::new(1, 2, 3)));
    assert_eq!(index.reader().get("k"), Some(RecordInfo::new(4, 5, 6)));
    assert!(index.contains_key("k"));
    assert!(!index.contains_key("other"));
    index.insert("j".to_string(), RecordInfo::new(7, 8, 9));
    let mut entries = index.entries();
    entries.sort_by(|a, b| a.0.cmp(&b.0));
    assert_eq!(
        entries,
        vec![("j".to_string(), RecordInfo::new(7, 8, 9)), ("k".to_string(), RecordInfo::new(4, 5, 6))]
    );
    assert_eq!(index.remove("k"), Some(RecordInfo::new(4, 5, 6)));
    assert_eq!(index.remove("k"), None);
    assert_eq!(index.reader().get("k"), None);
    assert!(!index.contains_key("k"));
}

#[test]
fn readers_see_what_the_writer_publishes() {
    let mut index = Index::new();
    let reader = index.reader();
    let second = reader.another();
    assert_eq!(reader.get("k"), None);
    index.insert("k".to_string(), RecordInfo::new(1, 2, 3));
    assert_eq!(reader.get("k"), Some(RecordInfo::new(1, 2, 3)));
    assert_eq!(second.get("k"), Some(RecordInfo::new(1, 2, 3)));
}

#[test]
fn second_handle_sees_absent_or_the_value_set() {
    let mut store = MemStore::open(HashMap::new()).unwrap();
    let reader = store.reader.another();
    for i in 0..1000 {
        store.set(&format!("a{}", i), &format!("{}", i)).unwrap();
        for j in [0, i / 2, i, i + 1, 999] {
            match reader.get(&format!("a{}", j)) {
                None => assert!(j > i),
                Some(place) => {
                    assert!(j <= i);
                    assert_eq!(read_value(store.bytes_at(place)).unwrap(), Some(format!("{}", j)));
                }
            }
        }
    }
}

#[test]
fn compaction_cannot_be_planned_without_two_more_ids() {
    let mut recovery = Recovery::new();
    recovery.replay(u64::MAX - 1, b"").unwrap();
    let mut writer = recovery.finish();
    writer.commit_set("a".to_string(), 3);
    assert!(matches!(writer.plan_compaction(), Err(KvError::Other(_))));
    assert!(writer.planned().is_none());
    assert!(writer.finish_compaction().is_none());
    assert!(writer.contains_key("a"));

    let mut recovery = Recovery::new();
    recovery.replay(u64::MAX - 2, b"").unwrap();
    let mut writer = recovery.finish();
    writer.plan_compaction().unwrap();
    let done = writer.finish_compaction().unwrap();
    assert_eq!(done.safe_point, u64::MAX - 1);
    assert_eq!(done.active, u64::MAX);
    assert_eq!(done.stale, vec![u64::MAX - 2]);
}

#[test]
fn plan_copies_records_back_to_back() {
    let mut writer = Recovery::new().finish();
    writer.commit_set("a".to_string(), 10);
    writer.commit_set("b".to_string(), 20);
    writer.commit_set("c".to_string(), 30);
    writer.commit_set("b".to_string(), 5);
    writer.plan_compaction().unwrap();
    let plan = writer.planned().unwrap();
    assert_eq!(plan.target(), 1);
    assert_eq!(plan.len(), 3);
    let mut expected_offset = 0;
    let mut lengths = Vec::new();
    for i in 0..plan.len() {
        assert_eq!(plan.target_offset(i), expected_offset);
        assert_eq!(plan.source(i).file_id, 0);
        expected_offset += plan.source(i).length;
        lengths.push(plan.source(i).length);
    }
    lengths.sort();
    assert_eq!(lengths, vec![5, 10, 30]);
    assert_eq!(expected_offset, 45);
}

#[test]
fn staging_refuses_what_cannot_be_written() {
    let mut writer = Recovery::new().finish();
    assert!(matches!(writer.stage_remove("a"), Err(KvError::KeyNotFound)));
    assert_eq!(writer.stage_set("a", "1").unwrap(), b"{\"Set\":[\"a\",\"1\"]}".to_vec());
    writer.commit_set("a".to_string(), u64::MAX - 15);
    assert_eq!(writer.stage_remove("a").unwrap(), b"{\"Remove\":\"a\"}".to_vec());
    assert!(matches!(writer.stage_set("a", "1"), Err(KvError::Other(_))));
    writer.commit_set("b".to_string(), 1);
    assert!(writer.stage_remove("a").is_ok());
    writer.commit_set("b".to_string(), 1);
    assert!(matches!(writer.stage_remove("a"), Err(KvError::Other(_))));
    assert!(matches!(writer.stage_remove("c"), Err(KvError::KeyNotFound)));
}
