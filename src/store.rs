//! The storage engine: key-value operations over a directory of append-only log files.
//!
//! A [`Store`] keeps its index in a [`KeyDir`] and works its files through a [`LogStorage`].
//! A write encodes a record, appends it to the active file, updates the index, freezes the
//! active file once it has grown past the size limit, and compacts the immutable files when
//! the policy asks for it. A read follows the index to one record and checks it.

use vstd::prelude::*;

use vstd::utf8::*;

use crate::cmd::{encode_record, Cmd, Record, HEADER_BYTES, RM_VALUE_LEN};
use crate::compaction_policy::{CompactionContext, CompactionPolicy};
use crate::error::Error;
use crate::keydir::{IndexEntry, KeyDir, ACTIVE_FILE_IDX};
use crate::laws::{lemma_replay_files_push, replay_empty, replay_files};
use crate::reader::active_prefix_len;
use crate::utf8::byte_len;

verus! {

/// The directory under a store: log files in directory order, the last of which is the active
/// one, and immutable files addressed by their slot. Nothing is assumed of what these methods
/// return: the store checks every record that it reads back.
pub trait LogStorage {
    /// How many log files the directory held when it was opened.
    fn file_count(&self) -> usize;

    /// The whole contents of the file at `position` in directory order.
    fn read_file(&mut self, position: usize) -> Result<Vec<u8>, Error>;

    /// Cuts the active file down to its first `len` bytes.
    fn truncate_active(&mut self, len: u64) -> Result<(), Error>;

    /// Appends `bytes` to the active file.
    fn append_active(&mut self, bytes: &[u8]) -> Result<(), Error>;

    /// The bytes from `offset` in the file in slot `file_idx`, at least one whole record.
    fn read_record(&mut self, file_idx: usize, offset: u64) -> Result<Vec<u8>, Error>;

    /// Freezes the active file as the last immutable one and creates a new active file.
    fn roll_over(&mut self) -> Result<(), Error>;

    /// Creates the file that a compaction writes, in the slot after the immutable files.
    fn begin_compaction(&mut self) -> Result<(), Error>;

    /// Appends `bytes` to the file that the compaction writes.
    fn append_compacted(&mut self, bytes: &[u8]) -> Result<(), Error>;

    /// Unlinks the immutable files that the compaction replaced; the compacted file becomes
    /// slot 0.
    fn finish_compaction(&mut self) -> Result<(), Error>;
}

/// A key-value store over the log files of `S`.
pub struct Store<S, C> {
    storage: S,
    index: KeyDir<C>,
}

impl<S, C: CompactionPolicy> View for Store<S, C> {
    type V = Map<Seq<char>, Seq<char>>;

    closed spec fn view(&self) -> Map<Seq<char>, Seq<char>> {
        self.index@
    }
}

impl<S: LogStorage, C: CompactionPolicy> Store<S, C> {
    pub closed spec fn wf(&self) -> bool {
        self.index.wf() && self.index.log_wf()
    }

    /// The store's index.
    pub closed spec fn keydir(&self) -> KeyDir<C> {
        self.index
    }

    /// The storage under the store.
    pub closed spec fn backing(&self) -> S {
        self.storage
    }

    /// Every record read back so far was the one that the index expected there.
    pub open spec fn faithful(&self) -> bool {
        self.keydir().faithful()
    }

    /// Opens the store over the files of `storage`, replaying them in order to build the index.
    /// A record cut short at the end of the active file, by a write that was interrupted, is
    /// dropped, and the file truncated to the whole records before it; a record that does not
    /// decode anywhere else makes the log corrupt.
    pub fn open(mut storage: S, compaction_policy: C, file_size_limit: u64) -> (r: Result<
        Self,
        Error,
    >)
        ensures
            r matches Ok(s) ==> {
                &&& s.wf()
                &&& s.faithful()
                &&& s.keydir().compacting() is None
                &&& s.keydir().policy() == compaction_policy
                &&& s.keydir().size_limit() == file_size_limit
                &&& s@ == replay_files(Map::empty(), s.log_files())
            },
    {
        let mut index = KeyDir::new(compaction_policy, file_size_limit);
        let n = storage.file_count();
        if n >= usize::MAX - 2 {
            return Err(Error::Io("too many log files".to_owned()));
        }
        let mut pos: usize = 0;
        while pos < n
            invariant
                index.wf(),
                index.log_wf(),
                index.faithful(),
                index.compacting() is None,
                index.policy() == compaction_policy,
                index.size_limit() == file_size_limit,
                n < usize::MAX - 2,
                pos <= n,
                pos < n ==> index.files().len() == pos && index.active().len() == 0,
                pos < n ==> index@ == replay_files(Map::empty(), index.files()),
                pos == n && n > 0 ==> index@ == replay_files(
                    Map::empty(),
                    index.files().push(index.active()),
                ),
                n == 0 ==> index@ == Map::<Seq<char>, Seq<char>>::empty() && index.files().len()
                    == 0 && index.active().len() == 0,
            decreases n - pos,
        {
            let bytes = match storage.read_file(pos) {
                Ok(b) => b,
                Err(e) => {
                    return Err(e);
                },
            };
            let last = pos + 1 == n;
            let mut data = bytes.as_slice();
            if last {
                let cut = active_prefix_len(data);
                if cut < data.len() {
                    match storage.truncate_active(cut as u64) {
                        Ok(()) => {},
                        Err(e) => {
                            return Err(e);
                        },
                    }
                    data = vstd::slice::slice_subrange(data, 0, cut);
                }
            }
            let ghost before = index;
            match index.load_file(data, last) {
                Ok(()) => {},
                Err(e) => {
                    return Err(e);
                },
            }
            proof {
                lemma_replay_files_push(Map::empty(), before.files(), data@);
            }
            pos = pos + 1;
        }
        proof {
            if n == 0 {
                assert(index.active() =~= Seq::<u8>::empty());
                assert(index.files() =~= Seq::<Seq<u8>>::empty());
                lemma_replay_files_push(Map::empty(), index.files(), index.active());
                replay_empty(Map::empty());
            }
        }
        Ok(Store { storage, index })
    }

    /// What a successful write leaves in the index `fin`, given the immutable files, the active
    /// file, the dead count and the entries of `keys` just after the write's record was
    /// appended. The active file is frozen exactly where it has grown past the size limit; the
    /// policy is then asked, with the number of immutable files and the dead count, and the
    /// immutable files are compacted exactly where it fires and there is at least one.
    pub open spec fn settles(
        fin: KeyDir<C>,
        files: Seq<Seq<u8>>,
        active: Seq<u8>,
        dead: usize,
        entry: spec_fn(Seq<char>) -> IndexEntry,
        keys: Set<Seq<char>>,
        policy: C,
        limit: u64,
    ) -> bool {
        let roll = active.len() > limit;
        let files1 = if roll {
            files.push(active)
        } else {
            files
        };
        let compacts = policy.fires(
            CompactionContext { open_immutable_files: files1.len() as usize, dead_commands: dead },
        ) && files1.len() > 0;
        &&& fin.compacting() is None
        &&& fin.policy() == policy
        &&& fin.size_limit() == limit
        &&& fin.active() == (if roll {
            Seq::<u8>::empty()
        } else {
            active
        })
        &&& !compacts ==> fin.files() == files1 && fin.dead() == dead && forall|k: Seq<char>|
            #[trigger] keys.contains(k) ==> fin.entry_of(k) == (if roll && entry(k).file_idx
                == ACTIVE_FILE_IDX {
                IndexEntry { file_idx: files.len() as usize, file_offset: entry(k).file_offset }
            } else {
                entry(k)
            })
        &&& compacts ==> fin.files().len() == 1 && fin.dead() == 0 && forall|k: Seq<char>|
            #[trigger] fin@.contains_key(k) ==> fin.entry_of(k).file_idx == ACTIVE_FILE_IDX
                || fin.entry_of(k).file_idx == 0
    }

    /// Entries that agree on `keys` settle alike.
    proof fn lemma_settles_entries(
        fin: KeyDir<C>,
        files: Seq<Seq<u8>>,
        active: Seq<u8>,
        dead: usize,
        e1: spec_fn(Seq<char>) -> IndexEntry,
        e2: spec_fn(Seq<char>) -> IndexEntry,
        keys: Set<Seq<char>>,
        policy: C,
        limit: u64,
    )
        requires
            Self::settles(fin, files, active, dead, e1, keys, policy, limit),
            forall|k: Seq<char>| #[trigger] keys.contains(k) ==> e1(k) == e2(k),
        ensures
            Self::settles(fin, files, active, dead, e2, keys, policy, limit),
    {
    }

    /// Freezes the active file where it has grown too long, then compacts where the policy asks
    /// for it.
    fn after_write(&mut self) -> (r: Result<(), Error>)
        requires
            old(self).wf(),
            old(self).keydir().compacting() is None,
        ensures
            final(self).wf(),
            final(self).faithful() ==> old(self).faithful() && final(self)@ == old(self)@,
            r is Ok ==> Self::settles(
                final(self).keydir(),
                old(self).keydir().files(),
                old(self).keydir().active(),
                old(self).keydir().dead(),
                |k: Seq<char>| old(self).keydir().entry_of(k),
                old(self)@.dom(),
                old(self).keydir().policy(),
                old(self).keydir().size_limit(),
            ),
    {
        let ghost k0 = self.index;
        if self.index.needs_roll_over() {
            if self.index.open_immutable_files() >= usize::MAX - 3 {
                return Err(Error::Io("too many log files".to_owned()));
            }
            match self.storage.roll_over() {
                Ok(()) => {},
                Err(e) => {
                    return Err(e);
                },
            }
            self.index.roll_over();
        }
        let ghost k1 = self.index;
        if self.index.should_compact() && self.index.open_immutable_files() > 0 {
            let r = self.compact();
            proof {
                if r is Ok {
                    assert(self.index.active() == k1.active());
                    assert(k1.files() == (if k0.active().len() > k0.size_limit() {
                        k0.files().push(k0.active())
                    } else {
                        k0.files()
                    }));
                    assert(k1.context() == CompactionContext {
                        open_immutable_files: k1.files().len() as usize,
                        dead_commands: k0.dead(),
                    });
                    assert(self.index.files().len() == 1 && self.index.dead() == 0);
                    assert(forall|k: Seq<char>|
                        #[trigger] self.index@.contains_key(k) ==> self.index.entry_of(k).file_idx
                            == ACTIVE_FILE_IDX || self.index.entry_of(k).file_idx == 0);
                }
            }
            return r;
        }
        proof {
            assert forall|k: Seq<char>| #[trigger] k0@.dom().contains(k) implies self.index.entry_of(k)
                == (if k0.active().len() > k0.size_limit() && k0.entry_of(k).file_idx
                == ACTIVE_FILE_IDX {
                IndexEntry { file_idx: k0.files().len() as usize, file_offset: k0.entry_of(k).file_offset }
            } else {
                k0.entry_of(k)
            }) by {
                assert(k0@.contains_key(k));
            }
        }
        Ok(())
    }

    /// Rewrites the live records of the immutable files into one new immutable file and unlinks
    /// the others.
    pub fn compact(&mut self) -> (r: Result<(), Error>)
        requires
            old(self).wf(),
            old(self).keydir().compacting() is None,
        ensures
            final(self).wf(),
            final(self).faithful() ==> old(self).faithful() && final(self)@ == old(self)@,
            r is Ok ==> final(self).keydir().files().len() == 1
                && final(self).keydir().compacting() is None,
            r is Ok ==> forall|k: Seq<char>|
                #[trigger] final(self).keydir()@.contains_key(k) ==> final(self).keydir().entry_of(k).file_idx
                    == ACTIVE_FILE_IDX || final(self).keydir().entry_of(k).file_idx == 0,
            r is Ok ==> final(self).keydir().active() == old(self).keydir().active()
                && final(self).keydir().dead() == 0,
            final(self).keydir().policy() == old(self).keydir().policy(),
            final(self).keydir().size_limit() == old(self).keydir().size_limit(),
    {
        if self.index.open_immutable_files() >= usize::MAX - 3 {
            return Err(Error::Io("too many log files".to_owned()));
        }
        match self.storage.begin_compaction() {
            Ok(()) => {},
            Err(e) => {
                return Err(e);
            },
        }
        let ghost start = self.index;
        let n = self.index.open_immutable_files();
        let targets = self.index.begin_compaction();
        let mut t: usize = 0;
        while t < targets.len()
            invariant
                self.index.wf(),
                self.index.log_wf(),
                self.index.compacting() == Some(n),
                start == old(self).keydir(),
                self.index.active() == start.active(),
                self.index.policy() == start.policy(),
                self.index.size_limit() == start.size_limit(),
                self.index.len_spec() == start.len_spec(),
                start.faithful() == old(self).keydir().faithful(),
                start@ == old(self)@,
                self.index.faithful() ==> start.faithful() && self.index@ == start@,
                t <= targets@.len(),
                forall|a: int, b: int|
                    0 <= a < b < targets@.len() ==> #[trigger] targets@[a] < #[trigger] targets@[b],
                forall|j: int|
                    t <= j < targets@.len() ==> #[trigger] targets@[j] < start.len_spec()
                        && self.index.entry_spec(targets@[j] as int).1.file_idx < n,
            decreases targets@.len() - t,
        {
            let i = targets[t];
            let e = self.index.entry_at(i);
            let bytes = match self.storage.read_record(e.file_idx, e.file_offset) {
                Ok(b) => b,
                Err(e) => {
                    return Err(e);
                },
            };
            if self.index.compacted_len() > u64::MAX - bytes.len() as u64 {
                return Err(Error::Io("compacted file too long".to_owned()));
            }
            let ghost before = self.index;
            let out = match self.index.relocate(i, bytes.as_slice()) {
                Ok(o) => o,
                Err(e) => {
                    return Err(e);
                },
            };
            proof {
                assert forall|j: int| t + 1 <= j < targets@.len() implies #[trigger] targets@[j]
                    < start.len_spec() && self.index.entry_spec(targets@[j] as int).1.file_idx
                    < n by {
                    assert(targets@[t as int] < targets@[j]);
                    assert(before.entry_spec(targets@[j] as int).1.file_idx < n);
                }
            }
            match self.storage.append_compacted(out.as_slice()) {
                Ok(()) => {},
                Err(e) => {
                    return Err(e);
                },
            }
            t = t + 1;
        }
        let ghost before_finish = self.index;
        match self.index.finish_compaction() {
            Ok(()) => {},
            Err(e) => {
                return Err(e);
            },
        }
        assert forall|k: Seq<char>| #[trigger] self.index@.contains_key(k) implies self.index.entry_of(
            k,
        ).file_idx == ACTIVE_FILE_IDX || self.index.entry_of(k).file_idx == 0 by {
            assert(before_finish@.contains_key(k));
        }
        self.storage.finish_compaction()
    }

    /// Sets `key` to `value`.
    pub fn set(&mut self, key: String, value: String) -> (r: Result<(), Error>)
        requires
            old(self).wf(),
        ensures
            final(self).wf(),
            final(self).faithful() ==> old(self).faithful(),
            r is Ok && final(self).faithful() ==> final(self)@ == old(self)@.insert(key@, value@),
            r is Err && final(self).faithful() ==> final(self)@ == old(self)@ || final(self)@
                == old(self)@.insert(key@, value@),
            old(self).keydir().compacting() is Some ==> r == Err::<(), Error>(Error::CorruptLog)
                && *final(self) == *old(self),
            old(self).keydir().compacting() is None && !Record::Put(key@, value@).encodable()
                ==> r == Err::<(), Error>(Error::MalformedRecord) && *final(self) == *old(self),
            r is Ok ==> Self::settles(
                final(self).keydir(),
                old(self).keydir().files(),
                old(self).keydir().active() + encode_record(Record::Put(key@, value@)),
                old(self).keydir().dead_after_write(key@),
                |k: Seq<char>|
                    if k == key@ {
                        IndexEntry {
                            file_idx: ACTIVE_FILE_IDX,
                            file_offset: old(self).keydir().active().len() as u64,
                        }
                    } else {
                        old(self).keydir().entry_of(k)
                    },
                old(self)@.dom().insert(key@),
                old(self).keydir().policy(),
                old(self).keydir().size_limit(),
            ),
    {
        if self.index.is_compacting() {
            return Err(Error::CorruptLog);
        }
        let kl = byte_len(key.as_str());
        let vl = byte_len(value.as_str());
        if kl > u32::MAX as usize || vl as u64 >= RM_VALUE_LEN || vl > usize::MAX - HEADER_BYTES
            || kl > usize::MAX - HEADER_BYTES - vl {
            return Err(Error::MalformedRecord);
        }
        let total = HEADER_BYTES + kl + vl;
        if self.index.active_len() > u64::MAX - total as u64 {
            return Err(Error::Io("log file too long".to_owned()));
        }
        let cmd = Cmd::Put(key.clone(), value.clone());
        assert(cmd@ == Record::Put(key@, value@));
        assert(encode_utf8(key@).len() == kl && encode_utf8(value@).len() == vl);
        let mut bytes: Vec<u8> = Vec::new();
        cmd.write(&mut bytes);
        match self.storage.append_active(bytes.as_slice()) {
            Ok(()) => {},
            Err(e) => {
                return Err(e);
            },
        }
        let ghost k0 = self.index;
        let ghost kv = key@;
        self.index.commit_put(key, &value);
        let ghost k1 = self.index;
        let r = self.after_write();
        proof {
            if r is Ok {
                assert(k1@.dom() =~= k0@.dom().insert(kv));
                Self::lemma_settles_entries(
                    self.index,
                    k1.files(),
                    k1.active(),
                    k1.dead(),
                    |k: Seq<char>| k1.entry_of(k),
                    |k: Seq<char>|
                        if k == kv {
                            IndexEntry {
                                file_idx: ACTIVE_FILE_IDX,
                                file_offset: k0.active().len() as u64,
                            }
                        } else {
                            k0.entry_of(k)
                        },
                    k1@.dom(),
                    k1.policy(),
                    k1.size_limit(),
                );
            }
        }
        r
    }

    /// The value of `key`, if it has one.
    pub fn get(&mut self, key: String) -> (r: Result<Option<String>, Error>)
        requires
            old(self).wf(),
        ensures
            final(self).wf(),
            final(self)@ == old(self)@,
            final(self).faithful() ==> old(self).faithful(),
            !old(self)@.contains_key(key@) ==> r matches Ok(None),
            r matches Ok(None) ==> !old(self)@.contains_key(key@),
            final(self).faithful() ==> (r matches Ok(Some(v)) ==> v@ == old(self)@[key@]),
            old(self)@.contains_key(key@) && final(self).faithful() && r is Ok ==> r matches Ok(
                Some(_),
            ),
    {
        match self.index.lookup(&key) {
            None => Ok(None),
            Some(e) => {
                let bytes = match self.storage.read_record(e.file_idx, e.file_offset) {
                    Ok(b) => b,
                    Err(err) => {
                        return Err(err);
                    },
                };
                match self.index.check_read(&key, bytes.as_slice()) {
                    Ok(v) => Ok(Some(v)),
                    Err(err) => Err(err),
                }
            },
        }
    }

    /// Removes `key`; fails with [`Error::KeyNotFound`], writing nothing, where it has no value.
    pub fn remove(&mut self, key: String) -> (r: Result<(), Error>)
        requires
            old(self).wf(),
        ensures
            final(self).wf(),
            final(self).faithful() ==> old(self).faithful(),
            !old(self)@.contains_key(key@) ==> (r matches Err(Error::KeyNotFound)) && final(self)@
                == old(self)@,
            r is Ok && final(self).faithful() ==> final(self)@ == old(self)@.remove(key@),
            !old(self)@.contains_key(key@) ==> r == Err::<(), Error>(Error::KeyNotFound)
                && *final(self) == *old(self),
            old(self)@.contains_key(key@) && old(self).keydir().compacting() is Some ==> r == Err::<
                (),
                Error,
            >(Error::CorruptLog) && *final(self) == *old(self),
            old(self)@.contains_key(key@) && old(self).keydir().compacting() is None
                && !Record::Rm(key@).encodable() ==> r == Err::<(), Error>(Error::MalformedRecord)
                && *final(self) == *old(self),
            r is Ok ==> Self::settles(
                final(self).keydir(),
                old(self).keydir().files(),
                old(self).keydir().active() + encode_record(Record::Rm(key@)),
                old(self).keydir().dead_after_write(key@),
                |k: Seq<char>| old(self).keydir().entry_of(k),
                old(self)@.dom().remove(key@),
                old(self).keydir().policy(),
                old(self).keydir().size_limit(),
            ),
    {
        if self.index.lookup(&key).is_none() {
            return Err(Error::KeyNotFound);
        }
        if self.index.is_compacting() {
            return Err(Error::CorruptLog);
        }
        let kl = byte_len(key.as_str());
        if kl > u32::MAX as usize || kl > usize::MAX - HEADER_BYTES {
            return Err(Error::MalformedRecord);
        }
        let total = HEADER_BYTES + kl;
        if self.index.active_len() > u64::MAX - total as u64 {
            return Err(Error::Io("log file too long".to_owned()));
        }
        let cmd = Cmd::Rm(key.clone());
        let mut bytes: Vec<u8> = Vec::new();
        cmd.write(&mut bytes);
        match self.storage.append_active(bytes.as_slice()) {
            Ok(()) => {},
            Err(e) => {
                return Err(e);
            },
        }
        let ghost k0 = self.index;
        self.index.commit_remove(&key);
        let ghost k1 = self.index;
        let r = self.after_write();
        proof {
            if r is Ok {
                assert(k1@.dom() =~= k0@.dom().remove(key@));
                Self::lemma_settles_entries(
                    self.index,
                    k1.files(),
                    k1.active(),
                    k1.dead(),
                    |k: Seq<char>| k1.entry_of(k),
                    |k: Seq<char>| k0.entry_of(k),
                    k1@.dom(),
                    k1.policy(),
                    k1.size_limit(),
                );
            }
        }
        r
    }

    /// The log files of the directory: the immutable ones by slot, then the active one.
    pub open spec fn log_files(&self) -> Seq<Seq<u8>> {
        self.keydir().files().push(self.keydir().active())
    }

    /// The map of a store is what its log files replay to, in order, whatever writes and
    /// compactions led there.
    pub proof fn lemma_map_is_replay(&self)
        requires
            self.wf(),
        ensures
            self@ == replay_files(Map::empty(), self.log_files()),
    {
        self.index.lemma_log_replays();
    }

    /// Restart equivalence: two stores over the same log files hold the same map. A store that
    /// [`Store::open`] builds over the files that another store left is one of them.
    pub proof fn law_restart_equivalence(before: &Self, after: &Self)
        requires
            before.wf(),
            after.wf(),
            after.log_files() == before.log_files(),
        ensures
            after@ == before@,
    {
        before.lemma_map_is_replay();
        after.lemma_map_is_replay();
    }

    /// The store never holds more live keys than keys were ever written to it.
    pub proof fn law_live_keys_bounded(&self)
        requires
            self.wf(),
        ensures
            self.keydir().len_spec() <= self.keydir().written().len(),
    {
        self.index.lemma_live_keys_bounded();
    }

    /// How many immutable files are open.
    pub fn open_immutable_files(&self) -> (r: usize)
        requires
            self.wf(),
        ensures
            r == self.keydir().files().len(),
    {
        self.index.open_immutable_files()
    }

    /// How many records in immutable files are dead.
    pub fn dead_commands(&self) -> (r: usize)
        ensures
            r == self.keydir().dead(),
    {
        self.index.dead_commands()
    }

    /// The number of live keys.
    pub fn len(&self) -> (r: usize)
        requires
            self.wf(),
        ensures
            r == self.keydir().len_spec(),
    {
        self.index.len()
    }

    /// The storage under the store.
    pub fn storage(&self) -> (r: &S)
        ensures
            *r == self.backing(),
    {
        &self.storage
    }
}

} // verus!
