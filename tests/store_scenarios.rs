use kvs::{
    log_file_name, segment_ids, split_records, value_of_record, Cmd, CompactionPlan, KvsError,
    LogPointer, StoreState, COMPACTION_THRESHOLD,
};
use std::collections::BTreeMap;

/// Segment files kept in memory, named as on disk.
struct Disk {
    files: BTreeMap<String, Vec<u8>>,
}

/// A store driven the way the server drives it, with `Disk` for its directory.
struct Store {
    state: StoreState,
    active: u64,
}

fn encode(cmd: &Cmd) -> Vec<u8> {
    let mut text = match cmd {
        Cmd::Put { key, value } => format!("P\t{}\t{}", key, value),
        Cmd::Rm { key } => format!("R\t{}", key),
    };
    text.push('\n');
    text.into_bytes()
}

fn decode(bytes: &[u8]) -> Cmd {
    let text = std::str::from_utf8(bytes).unwrap().trim_end_matches('\n');
    let parts: Vec<&str> = text.split('\t').collect();
    match parts[0] {
        "P" => Cmd::Put { key: parts[1].to_string(), value: parts[2].to_string() },
        _ => Cmd::Rm { key: parts[1].to_string() },
    }
}

impl Disk {
    fn new() -> Disk {
        Disk { files: BTreeMap::new() }
    }

    fn segment(&mut self, id: u64) -> &mut Vec<u8> {
        self.files.entry(log_file_name(id)).or_default()
    }

    fn read(&self, p: LogPointer) -> Vec<u8> {
        let file = &self.files[&log_file_name(p.file_id)];
        file[p.offset as usize..(p.offset + p.length) as usize].to_vec()
    }

    fn total_size(&self) -> usize {
        self.files.values().map(|f| f.len()).sum()
    }
}

impl Store {
    fn open(disk: &mut Disk) -> Store {
        let names: Vec<String> = disk.files.keys().cloned().collect();
        let mut state = StoreState::new();
        for id in segment_ids(&names) {
            state.start_segment(id).unwrap();
            let bytes = disk.files[&log_file_name(id)].clone();
            let mut records = Vec::new();
            let mut pos = 0usize;
            for len in split_records(&bytes) {
                let end = pos + len as usize;
                records.push((decode(&bytes[pos..end]), len));
                pos = end;
            }
            state.replay_segment(&records).unwrap();
        }
        let active = state.open_next_segment().unwrap();
        disk.segment(active);
        Store { state, active }
    }

    fn run(&mut self, disk: &mut Disk, plan: CompactionPlan) {
        let mut compacted = Vec::new();
        for c in plan.copies.iter() {
            assert_eq!(c.to_offset as usize, compacted.len());
            compacted.extend(disk.read(c.from));
        }
        for id in plan.obsolete.iter() {
            disk.files.remove(&log_file_name(*id));
        }
        disk.files.insert(log_file_name(plan.compact_id), compacted);
        disk.segment(plan.active_id);
        self.active = plan.active_id;
    }

    fn set(&mut self, disk: &mut Disk, key: &str, value: &str) {
        let record = encode(&Cmd::Put { key: key.to_string(), value: value.to_string() });
        disk.segment(self.active).extend(&record);
        let plan = self.state.set(key.to_string(), value.to_string(), record.len() as u64).unwrap();
        if let Some(plan) = plan {
            self.run(disk, plan);
        }
    }

    fn remove(&mut self, disk: &mut Disk, key: &str) -> Result<(), KvsError> {
        if !self.state.contains_key(key) {
            return Err(KvsError::KeyNotFound);
        }
        let record = encode(&Cmd::Rm { key: key.to_string() });
        disk.segment(self.active).extend(&record);
        if let Some(plan) = self.state.remove(key.to_string(), record.len() as u64)? {
            self.run(disk, plan);
        }
        Ok(())
    }

    fn get(&self, disk: &Disk, key: &str) -> Option<String> {
        self.state.lookup(key).map(|p| value_of_record(decode(&disk.read(p))).unwrap())
    }
}

#[test]
fn basic_operations() {
    let mut disk = Disk::new();
    let mut store = Store::open(&mut disk);
    store.set(&mut disk, "a", "1");
    store.set(&mut disk, "b", "2");
    assert_eq!(store.get(&disk, "a"), Some("1".to_string()));
    assert_eq!(store.get(&disk, "c"), None);
    store.remove(&mut disk, "a").unwrap();
    assert_eq!(store.get(&disk, "a"), None);
    assert!(matches!(store.remove(&mut disk, "a"), Err(KvsError::KeyNotFound)));
}

#[test]
fn overwrite_keeps_last_value() {
    let mut disk = Disk::new();
    let mut store = Store::open(&mut disk);
    store.set(&mut disk, "k", "v1");
    store.set(&mut disk, "k", "v2");
    assert_eq!(store.get(&disk, "k"), Some("v2".to_string()));
}

#[test]
fn values_survive_reopen() {
    let mut disk = Disk::new();
    {
        let mut store = Store::open(&mut disk);
        store.set(&mut disk, "a", "1");
        store.set(&mut disk, "b", "2");
    }
    let store = Store::open(&mut disk);
    assert_eq!(store.get(&disk, "b"), Some("2".to_string()));
    assert_eq!(store.get(&disk, "a"), Some("1".to_string()));
}

#[test]
fn compaction_bounds_the_log() {
    let mut disk = Disk::new();
    let mut store = Store::open(&mut disk);
    let mut last = String::new();
    for i in 0..2000 {
        let mut value = format!("{:06}", i);
        while value.len() < 1024 {
            value.push('x');
        }
        store.set(&mut disk, "k", &value);
        last = value;
    }
    assert!(disk.total_size() < 4 * 1024 * 1024);
    assert!(disk.files.len() <= 3);
    assert_eq!(store.get(&disk, "k"), Some(last));
    assert!(store.state.dead_bytes() <= COMPACTION_THRESHOLD);
    assert_eq!(store.state.total_bytes() as usize, disk.total_size());
}

#[test]
fn reopen_after_crash_matches_index() {
    let mut disk = Disk::new();
    let mut store = Store::open(&mut disk);
    for i in 0..300 {
        store.set(&mut disk, &format!("key{}", i % 50), &format!("value{}", i));
        if i % 7 == 0 {
            let _ = store.remove(&mut disk, &format!("key{}", (i + 3) % 50));
        }
    }
    let before: Vec<Option<String>> = (0..50).map(|i| store.get(&disk, &format!("key{}", i))).collect();
    let before_dead = store.state.dead_bytes();
    drop(store);
    let reopened = Store::open(&mut disk);
    let after: Vec<Option<String>> = (0..50).map(|i| reopened.get(&disk, &format!("key{}", i))).collect();
    assert_eq!(before, after);
    assert_eq!(reopened.state.dead_bytes(), before_dead);
}

#[test]
fn reopen_after_compaction_matches_index() {
    let mut disk = Disk::new();
    let mut store = Store::open(&mut disk);
    let big = "y".repeat(4096);
    for i in 0..600 {
        store.set(&mut disk, &format!("key{}", i % 40), &format!("{}{}", big, i));
    }
    let before: Vec<Option<String>> = (0..40).map(|i| store.get(&disk, &format!("key{}", i))).collect();
    drop(store);
    let reopened = Store::open(&mut disk);
    for i in 0..40 {
        assert_eq!(reopened.get(&disk, &format!("key{}", i)), before[i].clone());
    }
}

#[test]
fn remove_of_missing_key_changes_nothing() {
    let mut disk = Disk::new();
    let mut store = Store::open(&mut disk);
    store.set(&mut disk, "a", "1");
    let size = disk.total_size();
    let dead = store.state.dead_bytes();
    let r = store.state.remove("zz".to_string(), 10);
    assert!(matches!(r, Err(KvsError::KeyNotFound)));
    assert_eq!(store.state.dead_bytes(), dead);
    assert_eq!(disk.total_size(), size);
    assert_eq!(store.get(&disk, "a"), Some("1".to_string()));
    assert_eq!(store.get(&disk, "zz"), None);
}

#[test]
fn dead_bytes_count_displaced_and_remove_records() {
    let mut state = StoreState::new();
    state.start_segment(1).unwrap();
    state.set("k".to_string(), "v1".to_string(), 30).unwrap();
    assert_eq!(state.dead_bytes(), 0);
    state.set("k".to_string(), "v2".to_string(), 31).unwrap();
    assert_eq!(state.dead_bytes(), 30);
    state.remove("k".to_string(), 20).unwrap();
    assert_eq!(state.dead_bytes(), 30 + 31 + 20);
    assert_eq!(state.total_bytes(), 81);
    state.replay(Cmd::Rm { key: "absent".to_string() }, 5).unwrap();
    assert_eq!(state.dead_bytes(), 86);
}

#[test]
fn pointers_follow_the_active_segment() {
    let mut state = StoreState::new();
    state.start_segment(3).unwrap();
    state.set("a".to_string(), "1".to_string(), 10).unwrap();
    state.set("b".to_string(), "2".to_string(), 12).unwrap();
    assert_eq!(state.lookup("b"), Some(LogPointer { file_id: 3, offset: 10, length: 12 }));
    assert_eq!(state.active_id(), Some(3));
    assert_eq!(state.open_next_segment().unwrap(), 4);
    state.set("a".to_string(), "3".to_string(), 7).unwrap();
    assert_eq!(state.lookup("a"), Some(LogPointer { file_id: 4, offset: 0, length: 7 }));
}

#[test]
fn compaction_needs_an_open_store() {
    let mut state = StoreState::new();
    assert!(matches!(state.compact(), Err(KvsError::Corruption(_))));
    assert!(matches!(state.open_next_segment(), Ok(1)));
    let plan = state.compact().unwrap();
    assert_eq!((plan.compact_id, plan.active_id), (2, 3));
    assert!(plan.copies.is_empty());
    assert_eq!(state.total_bytes(), 0);
}

#[test]
fn compaction_runs_once_dead_bytes_pass_the_threshold() {
    let mut state = StoreState::new();
    state.start_segment(1).unwrap();
    let half = COMPACTION_THRESHOLD / 2;
    assert!(state.set("k".to_string(), "a".to_string(), half).unwrap().is_none());
    assert!(state.set("k".to_string(), "b".to_string(), half).unwrap().is_none());
    assert!(state.set("k".to_string(), "c".to_string(), half).unwrap().is_none());
    assert_eq!(state.dead_bytes(), COMPACTION_THRESHOLD);
    let plan = state.set("k".to_string(), "d".to_string(), 10).unwrap().unwrap();
    assert_eq!(plan.copies.len(), 1);
    assert_eq!(plan.copies[0].from, LogPointer { file_id: 1, offset: 3 * half, length: 10 });
    assert_eq!(state.dead_bytes(), 0);
    assert_eq!(state.total_bytes(), 10);
    assert_eq!(state.lookup("k"), Some(LogPointer { file_id: 2, offset: 0, length: 10 }));
}

#[test]
fn segment_ids_must_increase() {
    let mut state = StoreState::new();
    assert_eq!(state.active_id(), None);
    state.start_segment(5).unwrap();
    assert!(matches!(state.start_segment(5), Err(KvsError::Corruption(_))));
    assert!(matches!(state.start_segment(2), Err(KvsError::Corruption(_))));
    assert!(state.start_segment(6).is_ok());
}

#[test]
fn append_errors_leave_state_unchanged() {
    let mut state = StoreState::new();
    assert!(matches!(state.set("a".to_string(), "1".to_string(), 10), Err(KvsError::Corruption(_))));
    state.start_segment(1).unwrap();
    assert!(matches!(state.set("a".to_string(), "1".to_string(), 0), Err(KvsError::Corruption(_))));
    state.set("a".to_string(), "1".to_string(), 10).unwrap();
    assert!(matches!(state.set("b".to_string(), "2".to_string(), u64::MAX), Err(KvsError::Io(_))));
    assert!(matches!(state.remove("a".to_string(), u64::MAX), Err(KvsError::Io(_))));
    assert_eq!(state.total_bytes(), 10);
    assert_eq!(state.lookup("b"), None);
}

#[test]
fn compaction_moves_live_records_end_to_end() {
    let mut state = StoreState::new();
    state.start_segment(1).unwrap();
    state.set("a".to_string(), "1".to_string(), 10).unwrap();
    state.set("b".to_string(), "2".to_string(), 20).unwrap();
    state.set("a".to_string(), "3".to_string(), 30).unwrap();
    state.open_next_segment().unwrap();
    state.set("c".to_string(), "4".to_string(), 40).unwrap();
    let plan = state.compact().unwrap();
    assert_eq!(plan.compact_id, 3);
    assert_eq!(plan.active_id, 4);
    assert_eq!(plan.obsolete, vec![1, 2]);
    assert_eq!(plan.copies.len(), 3);
    let mut offset = 0;
    for c in plan.copies.iter() {
        assert_eq!(c.to_offset, offset);
        offset += c.from.length;
    }
    assert_eq!(offset, 90);
    assert_eq!(state.total_bytes(), 90);
    assert_eq!(state.dead_bytes(), 0);
    assert_eq!(state.active_id(), Some(4));
    let a = state.lookup("a").unwrap();
    assert_eq!((a.file_id, a.length), (3, 30));
}

#[test]
fn many_distinct_keys_are_all_kept() {
    let mut disk = Disk::new();
    let mut store = Store::open(&mut disk);
    for t in 0..8 {
        for m in 0..50 {
            store.set(&mut disk, &format!("t{}-k{}", t, m), &format!("v{}", m));
        }
    }
    for t in 0..8 {
        for m in 0..50 {
            assert_eq!(store.get(&disk, &format!("t{}-k{}", t, m)), Some(format!("v{}", m)));
        }
    }
}

#[test]
fn replay_segment_folds_all_records() {
    let mut state = StoreState::new();
    state.start_segment(1).unwrap();
    let records = vec![
        (Cmd::Put { key: "a".to_string(), value: "1".to_string() }, 10),
        (Cmd::Put { key: "b".to_string(), value: "2".to_string() }, 11),
        (Cmd::Rm { key: "a".to_string() }, 5),
        (Cmd::Put { key: "b".to_string(), value: "3".to_string() }, 12),
    ];
    state.replay_segment(&records).unwrap();
    assert_eq!(state.lookup("a"), None);
    assert_eq!(state.lookup("b"), Some(LogPointer { file_id: 1, offset: 26, length: 12 }));
    assert_eq!(state.total_bytes(), 38);
    assert_eq!(state.dead_bytes(), 10 + 5 + 11);
}

#[test]
fn replay_segment_stops_at_a_bad_record() {
    let mut state = StoreState::new();
    assert!(state.replay_segment(&Vec::new()).is_ok());
    let records = vec![
        (Cmd::Put { key: "a".to_string(), value: "1".to_string() }, 10),
        (Cmd::Put { key: "b".to_string(), value: "2".to_string() }, 0),
        (Cmd::Put { key: "c".to_string(), value: "3".to_string() }, 10),
    ];
    assert!(matches!(state.replay_segment(&records), Err(KvsError::Corruption(_))));
    state.start_segment(1).unwrap();
    assert!(matches!(state.replay_segment(&records), Err(KvsError::Corruption(_))));
    assert!(state.lookup("a").is_some());
    assert_eq!(state.lookup("c"), None);
    assert_eq!(state.total_bytes(), 10);
}

#[test]
fn compaction_waits_for_the_threshold() {
    let mut state = StoreState::new();
    state.start_segment(1).unwrap();
    state.set("k".to_string(), "a".to_string(), COMPACTION_THRESHOLD).unwrap();
    assert!(state.set("k".to_string(), "b".to_string(), 5).unwrap().is_none());
    assert_eq!(state.dead_bytes(), COMPACTION_THRESHOLD);
    assert_eq!(state.active_id(), Some(1));
    assert!(state.remove("k".to_string(), 1).unwrap().is_some());
    assert_eq!(state.dead_bytes(), 0);
    assert_eq!(state.active_id(), Some(3));
    assert_eq!(state.lookup("k"), None);
}
