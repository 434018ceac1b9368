use kvs::cmd::Cmd;
use kvs::compaction_policy::{CompactionPolicy, MaxDeadRecordPolicy, MaxFilePolicy, NeverPolicy};
use kvs::engine::KvsEngine;
use kvs::error::Error;
use kvs::keydir::{IndexEntry, KeyDir, ACTIVE_FILE_IDX, FILE_SIZE_LIMIT};
use kvs::reader::active_prefix_len;
use kvs::server::respond;
use kvs::response::Response;
use kvs::store::{LogStorage, Store};

#[derive(Clone, Default)]
struct MemStorage {
    opened: Vec<Vec<u8>>,
    immutable: Vec<Vec<u8>>,
    active: Vec<u8>,
    compacted: Option<Vec<u8>>,
    unlinked: usize,
}

impl MemStorage {
    fn with_files(files: Vec<Vec<u8>>) -> Self {
        let mut files = files;
        let active = files.pop().unwrap_or_default();
        let mut opened = files.clone();
        opened.push(active.clone());
        MemStorage { opened, immutable: files, active, compacted: None, unlinked: 0 }
    }

    fn files(&self) -> Vec<Vec<u8>> {
        let mut all = self.immutable.clone();
        all.push(self.active.clone());
        all
    }
}

impl LogStorage for MemStorage {
    fn file_count(&self) -> usize {
        self.opened.len()
    }

    fn read_file(&mut self, position: usize) -> Result<Vec<u8>, Error> {
        self.opened.get(position).cloned().ok_or(Error::CorruptLog)
    }

    fn truncate_active(&mut self, len: u64) -> Result<(), Error> {
        self.active.truncate(len as usize);
        Ok(())
    }

    fn append_active(&mut self, bytes: &[u8]) -> Result<(), Error> {
        self.active.extend_from_slice(bytes);
        Ok(())
    }

    fn read_record(&mut self, file_idx: usize, offset: u64) -> Result<Vec<u8>, Error> {
        let file = if file_idx == ACTIVE_FILE_IDX {
            &self.active
        } else {
            self.immutable.get(file_idx).ok_or(Error::CorruptLog)?
        };
        Ok(file[offset as usize..].to_vec())
    }

    fn roll_over(&mut self) -> Result<(), Error> {
        let old = std::mem::take(&mut self.active);
        self.immutable.push(old);
        Ok(())
    }

    fn begin_compaction(&mut self) -> Result<(), Error> {
        self.compacted = Some(Vec::new());
        Ok(())
    }

    fn append_compacted(&mut self, bytes: &[u8]) -> Result<(), Error> {
        self.compacted.as_mut().ok_or(Error::CorruptLog)?.extend_from_slice(bytes);
        Ok(())
    }

    fn finish_compaction(&mut self) -> Result<(), Error> {
        let compacted = self.compacted.take().ok_or(Error::CorruptLog)?;
        self.unlinked += self.immutable.len();
        self.immutable = vec![compacted];
        Ok(())
    }
}

struct Engine<C> {
    store: Store<MemStorage, C>,
}

impl<C: CompactionPolicy> KvsEngine for Engine<C> {
    fn set(&mut self, key: String, value: String) -> Result<(), Error> {
        self.store.set(key, value)
    }

    fn get(&mut self, key: String) -> Result<Option<String>, Error> {
        self.store.get(key)
    }

    fn remove(&mut self, key: String) -> Result<(), Error> {
        self.store.remove(key)
    }
}

fn fresh<C: CompactionPolicy>(policy: C, limit: u64) -> Store<MemStorage, C> {
    Store::open(MemStorage::with_files(vec![]), policy, limit).unwrap()
}

fn s(x: &str) -> String {
    x.to_owned()
}

#[test]
fn basic_round_trip() {
    let mut store = fresh(MaxFilePolicy::default(), FILE_SIZE_LIMIT);
    store.set(s("foo"), s("bar")).unwrap();
    assert_eq!(store.get(s("foo")).unwrap(), Some(s("bar")));
    store.remove(s("foo")).unwrap();
    assert_eq!(store.get(s("foo")).unwrap(), None);
    assert!(matches!(store.remove(s("foo")), Err(Error::KeyNotFound)));
}

#[test]
fn overwrite_keeps_latest() {
    let mut store = fresh(MaxFilePolicy::default(), FILE_SIZE_LIMIT);
    store.set(s("k"), s("v1")).unwrap();
    store.set(s("k"), s("v2")).unwrap();
    assert_eq!(store.get(s("k")).unwrap(), Some(s("v2")));
    assert_eq!(store.len(), 1);
}

#[test]
fn restart_recovers_state() {
    let mut store = fresh(MaxFilePolicy::default(), FILE_SIZE_LIMIT);
    store.set(s("a"), s("1")).unwrap();
    store.set(s("b"), s("2")).unwrap();
    store.remove(s("a")).unwrap();
    let files = store.storage().files();
    let mut reopened = Store::open(MemStorage::with_files(files), MaxFilePolicy::default(), FILE_SIZE_LIMIT).unwrap();
    assert_eq!(reopened.get(s("a")).unwrap(), None);
    assert_eq!(reopened.get(s("b")).unwrap(), Some(s("2")));
}

#[test]
fn roll_over_after_limit() {
    let mut store = fresh(NeverPolicy, FILE_SIZE_LIMIT);
    let big = "x".repeat(400 * 1024);
    for key in ["k1", "k2", "k3"] {
        store.set(s(key), big.clone()).unwrap();
    }
    assert_eq!(store.storage().files().len(), 2);
    assert_eq!(store.open_immutable_files(), 1);
    for key in ["k1", "k2", "k3"] {
        assert_eq!(store.get(s(key)).unwrap(), Some(big.clone()));
    }
}

#[test]
fn compaction_under_max_files_two() {
    let mut store = fresh(MaxFilePolicy::new(2), 10);
    store.set(s("one"), s("first")).unwrap();
    store.set(s("two"), s("second")).unwrap();
    assert_eq!(store.open_immutable_files(), 2);
    store.set(s("three"), s("third")).unwrap();
    assert_eq!(store.open_immutable_files(), 1);
    assert_eq!(store.storage().unlinked, 3);
    assert_eq!(store.storage().files().len(), 2);
    assert_eq!(store.get(s("one")).unwrap(), Some(s("first")));
    assert_eq!(store.get(s("two")).unwrap(), Some(s("second")));
    assert_eq!(store.get(s("three")).unwrap(), Some(s("third")));
    assert_eq!(store.dead_commands(), 0);
}

#[test]
fn compaction_drops_dead_records() {
    let mut store = fresh(NeverPolicy, 10);
    store.set(s("k"), s("old")).unwrap();
    store.set(s("k"), s("new")).unwrap();
    store.set(s("gone"), s("x")).unwrap();
    store.remove(s("gone")).unwrap();
    assert_eq!(store.dead_commands(), 2);
    store.compact().unwrap();
    assert_eq!(store.open_immutable_files(), 1);
    assert_eq!(store.dead_commands(), 0);
    assert_eq!(store.get(s("k")).unwrap(), Some(s("new")));
    assert_eq!(store.get(s("gone")).unwrap(), None);
    let files = store.storage().files();
    let mut compacted = Vec::new();
    Cmd::Put(s("k"), s("new")).write(&mut compacted);
    assert_eq!(files[0], compacted);
    let mut reopened = Store::open(MemStorage::with_files(files), NeverPolicy, 10).unwrap();
    assert_eq!(reopened.get(s("k")).unwrap(), Some(s("new")));
    assert_eq!(reopened.get(s("gone")).unwrap(), None);
}

#[test]
fn dead_record_policy_compacts() {
    let mut store = fresh(MaxDeadRecordPolicy::new(1), 10);
    store.set(s("a"), s("1")).unwrap();
    store.set(s("a"), s("2")).unwrap();
    assert_eq!(store.dead_commands(), 1);
    store.set(s("a"), s("3")).unwrap();
    assert_eq!(store.dead_commands(), 0);
    assert_eq!(store.open_immutable_files(), 1);
    assert_eq!(store.get(s("a")).unwrap(), Some(s("3")));
}

#[test]
fn live_keys_at_most_written() {
    let mut store = fresh(MaxFilePolicy::new(2), 30);
    for i in 0..20 {
        store.set(format!("k{}", i % 5), format!("v{i}")).unwrap();
    }
    store.remove(s("k0")).unwrap();
    assert_eq!(store.len(), 4);
    for i in 1..5 {
        assert_eq!(store.get(format!("k{i}")).unwrap(), Some(format!("v{}", 15 + i)));
    }
}

#[test]
fn hydration_rejects_persisted_get() {
    let mut bytes = Vec::new();
    Cmd::Get(s("k")).write(&mut bytes);
    let opened = Store::open(MemStorage::with_files(vec![bytes]), NeverPolicy, FILE_SIZE_LIMIT);
    assert!(matches!(opened, Err(Error::CorruptLog)));
}

#[test]
fn hydration_rejects_garbage() {
    let mut bytes = Vec::new();
    bytes.extend(1u32.to_be_bytes());
    bytes.extend(1u64.to_be_bytes());
    bytes.extend([0xff, b'v']);
    let opened = Store::open(MemStorage::with_files(vec![bytes]), NeverPolicy, FILE_SIZE_LIMIT);
    assert!(matches!(opened, Err(Error::CorruptLog)));
    let opened = Store::open(MemStorage::with_files(vec![vec![1, 2, 3]]), NeverPolicy, FILE_SIZE_LIMIT);
    assert_eq!(opened.unwrap().storage().active.len(), 0);
}

#[test]
fn hydration_over_several_files() {
    let mut first = Vec::new();
    Cmd::Put(s("a"), s("1")).write(&mut first);
    Cmd::Put(s("b"), s("2")).write(&mut first);
    let mut second = Vec::new();
    Cmd::Rm(s("a")).write(&mut second);
    Cmd::Put(s("b"), s("3")).write(&mut second);
    let mut store = Store::open(MemStorage::with_files(vec![first, second]), NeverPolicy, FILE_SIZE_LIMIT).unwrap();
    assert_eq!(store.open_immutable_files(), 1);
    assert_eq!(store.get(s("a")).unwrap(), None);
    assert_eq!(store.get(s("b")).unwrap(), Some(s("3")));
}

#[test]
fn corrupted_record_is_detected_on_get() {
    let mut good = Vec::new();
    Cmd::Put(s("k"), s("v")).write(&mut good);
    let mut tampered = good.clone();
    tampered[12] = b'z';
    let storage = MemStorage {
        opened: vec![good],
        immutable: vec![],
        active: tampered,
        compacted: None,
        unlinked: 0,
    };
    let mut store = Store::open(storage, NeverPolicy, FILE_SIZE_LIMIT).unwrap();
    assert!(matches!(store.get(s("k")), Err(Error::CorruptLog)));
    assert_eq!(store.get(s("z")).unwrap(), None);
}

#[test]
fn keydir_tracks_entries() {
    let mut kd = KeyDir::new(NeverPolicy, 100);
    let mut bytes = Vec::new();
    Cmd::Put(s("a"), s("b")).write(&mut bytes);
    assert!(kd.load_file(&bytes, false).is_ok());
    assert_eq!(kd.lookup(&s("a")), Some(IndexEntry { file_idx: 0, file_offset: 0 }));
    assert_eq!(kd.open_immutable_files(), 1);
    assert_eq!(kd.check_read(&s("a"), &bytes).unwrap(), s("b"));
    assert!(matches!(kd.check_read(&s("x"), &bytes), Err(Error::CorruptLog)));
    kd.commit_put(s("a"), &s("c"));
    assert_eq!(kd.lookup(&s("a")), Some(IndexEntry { file_idx: ACTIVE_FILE_IDX, file_offset: 0 }));
    assert_eq!(kd.dead_commands(), 1);
    assert_eq!(kd.active_len(), 14);
    assert!(!kd.needs_roll_over());
}

#[test]
fn server_answers_requests() {
    let mut engine = Engine { store: fresh(MaxFilePolicy::default(), FILE_SIZE_LIMIT) };
    let mut request = Vec::new();
    Cmd::Put(s("k"), s("v")).write(&mut request);
    assert_eq!(respond(&mut engine, &request), Response::SuccessfulSet);
    let mut request = Vec::new();
    Cmd::Get(s("k")).write(&mut request);
    assert_eq!(respond(&mut engine, &request), Response::SuccessfulGet(s("v")));
    let mut request = Vec::new();
    Cmd::Rm(s("k")).write(&mut request);
    assert_eq!(respond(&mut engine, &request), Response::SuccessfulRm);
    let mut request = Vec::new();
    Cmd::Get(s("k")).write(&mut request);
    assert_eq!(respond(&mut engine, &request), Response::KeyNotFound);
    let mut request = Vec::new();
    Cmd::Rm(s("k")).write(&mut request);
    assert_eq!(respond(&mut engine, &request), Response::KeyNotFound);
    assert_eq!(respond(&mut engine, &[]), Response::Error(s("Response had no data")));
    assert_eq!(respond(&mut engine, &[0, 0]), Response::Error(s("Malformed record")));
}

#[test]
fn torn_tail_of_active_file_is_dropped() {
    let mut bytes = Vec::new();
    Cmd::Put(s("a"), s("1")).write(&mut bytes);
    let whole = bytes.len();
    Cmd::Put(s("b"), s("2")).write(&mut bytes);
    bytes.truncate(bytes.len() - 1);
    let mut store = Store::open(MemStorage::with_files(vec![bytes]), NeverPolicy, FILE_SIZE_LIMIT).unwrap();
    assert_eq!(store.storage().active.len(), whole);
    assert_eq!(store.get(s("a")).unwrap(), Some(s("1")));
    assert_eq!(store.get(s("b")).unwrap(), None);
    store.set(s("c"), s("3")).unwrap();
    let files = store.storage().files();
    let mut reopened = Store::open(MemStorage::with_files(files), NeverPolicy, FILE_SIZE_LIMIT).unwrap();
    assert_eq!(reopened.get(s("c")).unwrap(), Some(s("3")));
}

#[test]
fn torn_record_in_immutable_file_is_corrupt() {
    let mut first = Vec::new();
    Cmd::Put(s("a"), s("1")).write(&mut first);
    first.truncate(first.len() - 1);
    let opened = Store::open(MemStorage::with_files(vec![first, vec![]]), NeverPolicy, FILE_SIZE_LIMIT);
    assert!(matches!(opened, Err(Error::CorruptLog)));
}

#[test]
fn compaction_moves_entries_to_slot_zero() {
    let mut kd = KeyDir::new(NeverPolicy, 1);
    let mut files: Vec<Vec<u8>> = Vec::new();
    let mut active: Vec<u8> = Vec::new();
    for (k, v) in [("a", "1"), ("b", "2"), ("a", "3")] {
        Cmd::Put(s(k), s(v)).write(&mut active);
        kd.commit_put(s(k), &s(v));
        assert!(kd.needs_roll_over());
        kd.roll_over();
        files.push(std::mem::take(&mut active));
    }
    Cmd::Put(s("c"), s("4")).write(&mut active);
    kd.commit_put(s("c"), &s("4"));
    assert_eq!(kd.open_immutable_files(), 3);
    assert_eq!(kd.dead_commands(), 1);
    let targets = kd.begin_compaction();
    assert_eq!(targets.len(), 2);
    let mut compacted = Vec::new();
    for i in targets {
        let e = kd.entry_at(i);
        let bytes = files[e.file_idx][e.file_offset as usize..].to_vec();
        let out = kd.relocate(i, &bytes).unwrap();
        compacted.extend(out);
    }
    kd.finish_compaction().unwrap();
    assert_eq!(kd.open_immutable_files(), 1);
    assert_eq!(kd.dead_commands(), 0);
    let a = kd.lookup(&s("a")).unwrap();
    let b = kd.lookup(&s("b")).unwrap();
    assert_eq!(a.file_idx, 0);
    assert_eq!(b.file_idx, 0);
    assert_eq!(kd.lookup(&s("c")).unwrap().file_idx, ACTIVE_FILE_IDX);
    assert_eq!(kd.check_read(&s("a"), &compacted[a.file_offset as usize..]).unwrap(), s("3"));
    assert_eq!(kd.check_read(&s("b"), &compacted[b.file_offset as usize..]).unwrap(), s("2"));
}

#[test]
fn active_prefix_keeps_whole_records() {
    let mut bytes = Vec::new();
    Cmd::Put(s("a"), s("1")).write(&mut bytes);
    let whole = bytes.len();
    assert_eq!(active_prefix_len(&bytes), whole);
    Cmd::Put(s("b"), s("2")).write(&mut bytes);
    let full = bytes.len();
    bytes.truncate(full - 1);
    assert_eq!(active_prefix_len(&bytes), whole);
    let mut bad = Vec::new();
    Cmd::Put(s("a"), s("1")).write(&mut bad);
    bad.extend(1u32.to_be_bytes());
    bad.extend(1u64.to_be_bytes());
    bad.extend([0xff, b'v']);
    assert_eq!(active_prefix_len(&bad), bad.len());
}

#[test]
fn load_file_refuses_stored_get() {
    let mut kd = KeyDir::new(NeverPolicy, 100);
    let mut bytes = Vec::new();
    Cmd::Put(s("a"), s("1")).write(&mut bytes);
    Cmd::Get(s("a")).write(&mut bytes);
    assert!(matches!(kd.load_file(&bytes, true), Err(Error::CorruptLog)));
}

#[test]
fn writes_leave_no_compaction_pending() {
    let mut store = fresh(MaxFilePolicy::new(1), 10);
    for i in 0..6 {
        store.set(format!("k{i}"), s("v")).unwrap();
        store.remove(format!("k{i}")).unwrap();
    }
    assert_eq!(store.open_immutable_files(), 1);
    assert_eq!(store.len(), 0);
}
