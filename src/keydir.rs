//! The in-memory index of the store, and every decision the store makes about its log files.
//!
//! A [`KeyDir`] maps each live key to the place of the record that last set it: a file slot and
//! a byte offset. Slot [`ACTIVE_FILE_IDX`] is the active file, to which all writes are appended;
//! slots `0..n` are the immutable files in directory order. The file system itself is worked by
//! the caller: the `KeyDir` says what to write and where, is told what was written, and checks
//! what was read. Beside the index it keeps, as ghost state, the contents that every file has
//! been given and the key-value map that the log stands for.

use vstd::prelude::*;
use vstd::utf8::*;

use crate::cmd::{encode_record, Cmd, Record, HEADER_BYTES};
use crate::compaction_policy::{CompactionContext, CompactionPolicy};
use crate::error::Error;
use crate::laws::{
    agree_outside,
    lemma_replay_agree,
    lemma_replay_insert_untouched,
    lemma_replay_untouched,
    lemma_replay_append,
    lemma_replay_files_push,
    replay_empty,
    replay_files,
    has_get,
    loadable,
    touched,
    whole,
};
use crate::reader::{
    decode_frame,
    lemma_decoded_is_encoded,
    lemma_round_trip,
    whole_records_len,
    Reader,
};

verus! {

/// The slot that stands for the active file.
pub const ACTIVE_FILE_IDX: usize = usize::MAX;

/// The length past which the active file is frozen and a new one started.
pub const FILE_SIZE_LIMIT: u64 = 1024 * 1024;

/// Where a record lives: a file slot and the offset of its header in that file.
#[derive(Debug, Clone, Copy, PartialEq, Eq)]
pub struct IndexEntry {
    pub file_idx: usize,
    pub file_offset: u64,
}

/// `f` holds the bytes of `r` at `off`.
pub open spec fn record_at(f: Seq<u8>, off: int, r: Record) -> bool {
    &&& 0 <= off
    &&& off + encode_record(r).len() <= f.len()
    &&& f.subrange(off, off + encode_record(r).len()) == encode_record(r)
}

/// `b` starts with the bytes of `r`.
pub open spec fn starts_with_record(b: Seq<u8>, r: Record) -> bool {
    record_at(b, 0, r)
}

/// The key-value map after applying one record: a `Put` sets, an `Rm` removes, a `Get` changes
/// nothing.
pub open spec fn apply_record(m: Map<Seq<char>, Seq<char>>, r: Record) -> Map<
    Seq<char>,
    Seq<char>,
> {
    match r {
        Record::Put(k, v) => m.insert(k, v),
        Record::Rm(k) => m.remove(k),
        Record::Get(_) => m,
    }
}

/// The key-value map after replaying the records of `b` in order, from `m`. Replay stops at the
/// first byte that does not start a record.
pub open spec fn replay(m: Map<Seq<char>, Seq<char>>, b: Seq<u8>) -> Map<Seq<char>, Seq<char>>
    decreases b.len(),
{
    match decode_frame(b) {
        Ok(Some((r, n))) => if 0 < n <= b.len() {
            replay(apply_record(m, r), b.subrange(n as int, b.len() as int))
        } else {
            m
        },
        _ => m,
    }
}

/// A record stays where it is when bytes are appended to its file.
proof fn lemma_record_at_append(f: Seq<u8>, x: Seq<u8>, off: int, r: Record)
    requires
        record_at(f, off, r),
    ensures
        record_at(f + x, off, r),
{
    assert((f + x).subrange(off, off + encode_record(r).len()) =~= f.subrange(
        off,
        off + encode_record(r).len(),
    ));
}

/// The index of a store, with the policy that decides when to compact.
pub struct KeyDir<C> {
    keys: Vec<String>,
    slots: Vec<IndexEntry>,
    immutable_files: usize,
    active_len: u64,
    file_size_limit: u64,
    dead_data_count: usize,
    compacting: Option<usize>,
    compacted_len: u64,
    compaction_policy: C,
    map: Ghost<Map<Seq<char>, Seq<char>>>,
    files: Ghost<Seq<Seq<u8>>>,
    active: Ghost<Seq<u8>>,
    written: Ghost<Set<Seq<char>>>,
    faithful: Ghost<bool>,
}

impl<C> View for KeyDir<C> {
    type V = Map<Seq<char>, Seq<char>>;

    /// The key-value map that the log stands for.
    closed spec fn view(&self) -> Map<Seq<char>, Seq<char>> {
        self.map@
    }
}

impl<C: CompactionPolicy> KeyDir<C> {
    /// The contents given to each immutable file, by slot.
    pub closed spec fn files(&self) -> Seq<Seq<u8>> {
        self.files@
    }

    /// The contents given to the active file.
    pub closed spec fn active(&self) -> Seq<u8> {
        self.active@
    }

    /// Every key that a `Put` has ever been given for.
    pub closed spec fn written(&self) -> Set<Seq<char>> {
        self.written@
    }

    /// Every record read back so far was the one that the index expected there.
    pub closed spec fn faithful(&self) -> bool {
        self.faithful@
    }

    pub closed spec fn dead(&self) -> usize {
        self.dead_data_count
    }

    pub closed spec fn policy(&self) -> C {
        self.compaction_policy
    }

    pub closed spec fn size_limit(&self) -> u64 {
        self.file_size_limit
    }

    /// The slot of the file that a compaction in progress is writing.
    pub closed spec fn compacting(&self) -> Option<usize> {
        self.compacting
    }

    /// The number of live keys.
    pub closed spec fn len_spec(&self) -> nat {
        self.keys@.len()
    }

    /// The `i`-th live key and where its record lives.
    pub closed spec fn entry_spec(&self, i: int) -> (Seq<char>, IndexEntry) {
        (self.keys@[i]@, self.slots@[i])
    }

    /// Where the record of live key `k` lives.
    pub closed spec fn entry_of(&self, k: Seq<char>) -> IndexEntry {
        self.slots@[choose|i: int| 0 <= i < self.keys@.len() && #[trigger] self.keys@[i]@ == k]
    }

    /// The contents of the file in `slot`.
    pub open spec fn file_of(&self, slot: usize) -> Seq<u8> {
        if slot == ACTIVE_FILE_IDX {
            self.active()
        } else {
            self.files()[slot as int]
        }
    }

    pub open spec fn slot_ok(&self, slot: usize) -> bool {
        slot == ACTIVE_FILE_IDX || slot < self.files().len()
    }

    /// `e` holds the record that gives `k` its value.
    pub open spec fn points_to(&self, k: Seq<char>, e: IndexEntry) -> bool {
        &&& self@.contains_key(k)
        &&& self.slot_ok(e.file_idx)
        &&& record_at(self.file_of(e.file_idx), e.file_offset as int, Record::Put(k, self@[k]))
        &&& Record::Put(k, self@[k]).encodable()
    }

    pub closed spec fn wf(&self) -> bool {
        &&& self.files@.len() == self.immutable_files
        &&& self.immutable_files < usize::MAX
        &&& self.active@.len() == self.active_len
        &&& self.keys@.len() == self.slots@.len()
        &&& self.compacting matches Some(n) ==> n + 1 == self.immutable_files
            && self.files@[n as int].len() == self.compacted_len
        &&& forall|i: int, j: int|
            0 <= i < j < self.keys@.len() ==> #[trigger] self.keys@[i]@ != #[trigger] self.keys@[j]@
        &&& forall|i: int|
            0 <= i < self.keys@.len() ==> #[trigger] self.points_to(self.keys@[i]@, self.slots@[i])
        &&& forall|k: Seq<char>|
            #[trigger] self.map@.contains_key(k) ==> exists|i: int|
                0 <= i < self.keys@.len() && #[trigger] self.keys@[i]@ == k
        &&& self.map@.dom().subset_of(self.written@)
        &&& self.written@.finite()
    }

    /// The live keys whose records are in slot `n`, with their values.
    pub open spec fn map_in_slot(&self, n: usize) -> Map<Seq<char>, Seq<char>> {
        Map::new(|k: Seq<char>| self@.contains_key(k) && self.entry_of(k).file_idx == n, |k: Seq<char>| self@[k])
    }

    /// The index sends a live key to the active file exactly where `t` holds it, and only where
    /// `allowed`.
    pub open spec fn tracks_active(&self, t: Set<Seq<char>>, allowed: bool) -> bool {
        &&& forall|k: Seq<char>|
            #[trigger] self@.contains_key(k) && t.contains(k) && allowed ==> self.entry_of(k).file_idx
                == ACTIVE_FILE_IDX
        &&& forall|k: Seq<char>|
            #[trigger] self@.contains_key(k) && self.entry_of(k).file_idx == ACTIVE_FILE_IDX
                ==> allowed && t.contains(k)
    }

    /// One record replayed into the index keeps it tracking the keys that the active file
    /// writes.
    proof fn lemma_track_step(
        before: Self,
        after: Self,
        t: Set<Seq<char>>,
        rec: Record,
        slot: usize,
        allowed: bool,
    )
        requires
            before.tracks_active(t, allowed),
            !(rec is Get),
            after@ == apply_record(before@, rec),
            rec is Put ==> after.entry_of(rec.key()).file_idx == slot,
            slot == ACTIVE_FILE_IDX <==> allowed,
            forall|k: Seq<char>|
                k != rec.key() && #[trigger] before@.contains_key(k) ==> after.entry_of(k)
                    == before.entry_of(k),
        ensures
            after.tracks_active(t.insert(rec.key()), allowed),
    {
        assert forall|k: Seq<char>|
            #[trigger] after@.contains_key(k) && t.insert(rec.key()).contains(k) && allowed
                implies after.entry_of(k).file_idx == ACTIVE_FILE_IDX by {
            if k != rec.key() {
                assert(before@.contains_key(k));
            }
        }
        assert forall|k: Seq<char>|
            #[trigger] after@.contains_key(k) && after.entry_of(k).file_idx == ACTIVE_FILE_IDX
                implies allowed && t.insert(rec.key()).contains(k) by {
            if k != rec.key() {
                assert(before@.contains_key(k));
            }
        }
    }

    /// The files are whole records and replay, in order, to the map; the index sends a key to
    /// the active file exactly where the active file writes it; and a compaction in progress has
    /// written the records of exactly the entries that it has moved.
    pub closed spec fn log_wf(&self) -> bool {
        &&& whole(self.active@)
        &&& forall|i: int| 0 <= i < self.files@.len() ==> whole(#[trigger] self.files@[i])
        &&& replay_files(Map::empty(), self.files@.push(self.active@)) == self.map@
        &&& self.tracks_active(touched(self.active@), true)
        &&& self.compacting matches Some(n) ==> replay(Map::empty(), self.files@[n as int])
            == self.map_in_slot(n)
    }

    /// The map is what the files replay to, in order.
    pub proof fn lemma_log_replays(&self)
        requires
            self.log_wf(),
        ensures
            replay_files(Map::empty(), self.files().push(self.active())) == self@,
    {
    }

    /// An empty index over no immutable files and an empty active file.
    pub fn new(compaction_policy: C, file_size_limit: u64) -> (r: Self)
        ensures
            r.wf(),
            r@ == Map::<Seq<char>, Seq<char>>::empty(),
            r.files() == Seq::<Seq<u8>>::empty(),
            r.active() == Seq::<u8>::empty(),
            r.written() == Set::<Seq<char>>::empty(),
            r.dead() == 0,
            r.policy() == compaction_policy,
            r.size_limit() == file_size_limit,
            r.compacting() is None,
            r.faithful(),
            r.log_wf(),
    {
        proof {
            replay_empty(Map::empty());
            assert(whole_records_len(Seq::<u8>::empty()) == 0);
            assert(touched(Seq::<u8>::empty()) == Set::<Seq<char>>::empty());
            assert(Seq::<Seq<u8>>::empty().push(Seq::<u8>::empty()).drop_first() =~= Seq::<Seq<u8>>::empty());
            lemma_replay_files_push(Map::empty(), Seq::empty(), Seq::empty());
        }
        KeyDir {
            keys: Vec::new(),
            slots: Vec::new(),
            immutable_files: 0,
            active_len: 0,
            file_size_limit,
            dead_data_count: 0,
            compacting: None,
            compacted_len: 0,
            compaction_policy,
            map: Ghost(Map::empty()),
            files: Ghost(Seq::empty()),
            active: Ghost(Seq::empty()),
            written: Ghost(Set::empty()),
            faithful: Ghost(true),
        }
    }

    /// The position of `key` among the live keys.
    fn find(&self, key: &String) -> (r: Option<usize>)
        requires
            self.wf(),
        ensures
            r is Some <==> self@.contains_key(key@),
            r matches Some(i) ==> i < self.keys@.len() && self.keys@[i as int]@ == key@
                && self.slots@[i as int] == self.entry_of(key@),
    {
        let mut i: usize = 0;
        while i < self.keys.len()
            invariant
                self.wf(),
                i <= self.keys@.len(),
                forall|j: int| 0 <= j < i ==> #[trigger] self.keys@[j]@ != key@,
            decreases self.keys@.len() - i,
        {
            if self.keys[i] == *key {
                assert(self.points_to(self.keys@[i as int]@, self.slots@[i as int]));
                let ghost j = choose|j: int|
                    0 <= j < self.keys@.len() && #[trigger] self.keys@[j]@ == key@;
                assert(j == i) by {
                    if j < i {
                        assert(self.keys@[j]@ != self.keys@[i as int]@);
                    } else if j > i {
                        assert(self.keys@[i as int]@ != self.keys@[j]@);
                    }
                }
                return Some(i);
            }
            i = i + 1;
        }
        proof {
            if self.map@.contains_key(key@) {
                let j = choose|j: int| 0 <= j < self.keys@.len() && #[trigger] self.keys@[j]@ == key@;
                assert(self.keys@[j]@ != key@);
            }
        }
        None
    }

    /// Where the record that gives `key` its value lives, if `key` has one.
    pub fn lookup(&self, key: &String) -> (r: Option<IndexEntry>)
        requires
            self.wf(),
        ensures
            r is Some <==> self@.contains_key(key@),
            r matches Some(e) ==> self.points_to(key@, e) && e == self.entry_of(key@),
    {
        match self.find(key) {
            Some(i) => {
                assert(self.points_to(self.keys@[i as int]@, self.slots@[i as int]));
                Some(self.slots[i])
            },
            None => None,
        }
    }


    /// The count of dead records after a write of `k`: one more where the record that the write
    /// supersedes lay in an immutable file.
    pub open spec fn dead_after_write(&self, k: Seq<char>) -> usize {
        if self@.contains_key(k) && self.entry_of(k).file_idx != ACTIVE_FILE_IDX && self.dead()
            < usize::MAX {
            (self.dead() + 1) as usize
        } else {
            self.dead()
        }
    }

    /// The entry of the `i`-th live key is the one at position `i`.
    proof fn lemma_entry_of_at(&self, i: int)
        requires
            self.wf(),
            0 <= i < self.keys@.len(),
        ensures
            self.entry_of(self.keys@[i]@) == self.slots@[i],
    {
        let k = self.keys@[i]@;
        let c = choose|c: int| 0 <= c < self.keys@.len() && #[trigger] self.keys@[c]@ == k;
        if c < i {
            assert(self.keys@[c]@ != self.keys@[i]@);
        } else if c > i {
            assert(self.keys@[i]@ != self.keys@[c]@);
        }
    }

    /// Every entry still holds its record after `extra` is appended to the active file.
    proof fn lemma_append_active(&self, extra: Seq<u8>)
        requires
            self.wf(),
        ensures
            forall|j: int|
                0 <= j < self.keys@.len() ==> record_at(
                    #[trigger] self.file_of(self.slots@[j].file_idx) + (if self.slots@[j].file_idx
                        == ACTIVE_FILE_IDX {
                        extra
                    } else {
                        Seq::empty()
                    }),
                    self.slots@[j].file_offset as int,
                    Record::Put(self.keys@[j]@, self@[self.keys@[j]@]),
                ),
    {
        assert forall|j: int| 0 <= j < self.keys@.len() implies record_at(
            #[trigger] self.file_of(self.slots@[j].file_idx) + (if self.slots@[j].file_idx
                == ACTIVE_FILE_IDX {
                extra
            } else {
                Seq::empty()
            }),
            self.slots@[j].file_offset as int,
            Record::Put(self.keys@[j]@, self@[self.keys@[j]@]),
        ) by {
            assert(self.points_to(self.keys@[j]@, self.slots@[j]));
            let e = self.slots@[j];
            let r = Record::Put(self.keys@[j]@, self@[self.keys@[j]@]);
            if e.file_idx == ACTIVE_FILE_IDX {
                lemma_record_at_append(self.active@, extra, e.file_offset as int, r);
            } else {
                lemma_record_at_append(self.file_of(e.file_idx), Seq::empty(), e.file_offset as int, r);
            }
        }
    }

    /// Appends `extra` to the ghost contents of the active file.
    fn extend_active(&mut self, extra: Ghost<Seq<u8>>, len: u64)
        requires
            old(self).wf(),
            old(self).compacting() is None,
            extra@.len() == len,
            old(self).active().len() + len <= u64::MAX,
        ensures
            final(self).faithful() == old(self).faithful(),
            final(self).wf(),
            final(self)@ == old(self)@,
            final(self).active() == old(self).active() + extra@,
            final(self).files() == old(self).files(),
            final(self).written() == old(self).written(),
            final(self).dead() == old(self).dead(),
            final(self).policy() == old(self).policy(),
            final(self).size_limit() == old(self).size_limit(),
            final(self).compacting() is None,
            forall|k: Seq<char>| #[trigger] final(self).entry_of(k) == old(self).entry_of(k),
    {
        proof {
            self.lemma_append_active(extra@);
        }
        let ghost old_self = *self;
        self.active_len = self.active_len + len;
        self.active = Ghost(self.active@ + extra@);
        proof {
            assert forall|j: int| 0 <= j < self.keys@.len() implies #[trigger] self.points_to(
                self.keys@[j]@,
                self.slots@[j],
            ) by {
                assert(old_self.points_to(old_self.keys@[j]@, old_self.slots@[j]));
                let e = self.slots@[j];
                if e.file_idx != ACTIVE_FILE_IDX {
                    assert(old_self.file_of(e.file_idx) + Seq::empty() =~= old_self.file_of(
                        e.file_idx,
                    ));
                }
            }
        }
    }

    /// Sends `key` to `entry`, whose record gives it `value`.
    fn insert_entry(&mut self, key: String, entry: IndexEntry, value: Ghost<Seq<char>>)
        requires
            old(self).wf(),
            old(self).slot_ok(entry.file_idx),
            record_at(
                old(self).file_of(entry.file_idx),
                entry.file_offset as int,
                Record::Put(key@, value@),
            ),
            Record::Put(key@, value@).encodable(),
        ensures
            final(self).faithful() == old(self).faithful(),
            final(self).wf(),
            final(self)@ == old(self)@.insert(key@, value@),
            final(self).active() == old(self).active(),
            final(self).files() == old(self).files(),
            final(self).written() == old(self).written().insert(key@),
            final(self).dead() == old(self).dead_after_write(key@),
            final(self).policy() == old(self).policy(),
            final(self).size_limit() == old(self).size_limit(),
            final(self).compacting() == old(self).compacting(),
            final(self).entry_of(key@) == entry,
            forall|k: Seq<char>|
                k != key@ && #[trigger] old(self)@.contains_key(k) ==> final(self).entry_of(k)
                    == old(self).entry_of(k),
    {
        let ghost old_self = *self;
        let found = self.find(&key);
        let ghost new_map = self.map@.insert(key@, value@);
        self.map = Ghost(new_map);
        self.written = Ghost(self.written@.insert(key@));
        match found {
            Some(i) => {
                if self.slots[i].file_idx != ACTIVE_FILE_IDX && self.dead_data_count < usize::MAX {
                    self.dead_data_count = self.dead_data_count + 1;
                }
                self.slots.set(i, entry);
            },
            None => {
                self.keys.push(key);
                self.slots.push(entry);
            },
        }
        proof {
            assert forall|j: int| 0 <= j < self.keys@.len() implies #[trigger] self.points_to(
                self.keys@[j]@,
                self.slots@[j],
            ) by {
                if self.keys@[j]@ != key@ {
                    assert(old_self.points_to(old_self.keys@[j]@, old_self.slots@[j]));
                } else if j < old_self.keys@.len() {
                    assert(old_self.points_to(old_self.keys@[j]@, old_self.slots@[j]));
                    match found {
                        Some(i) => {
                            if j < i {
                                assert(old_self.keys@[j]@ != old_self.keys@[i as int]@);
                            } else if j > i {
                                assert(old_self.keys@[i as int]@ != old_self.keys@[j]@);
                            }
                        },
                        None => {},
                    }
                }
            }
            assert forall|a: int, b: int|
                0 <= a < b < self.keys@.len() implies #[trigger] self.keys@[a]@
                != #[trigger] self.keys@[b]@ by {
                if found is None && b == old_self.keys@.len() {
                    assert(old_self.points_to(old_self.keys@[a]@, old_self.slots@[a]));
                }
            }
            assert forall|k: Seq<char>| #[trigger] self.map@.contains_key(k) implies exists|i: int|
                0 <= i < self.keys@.len() && #[trigger] self.keys@[i]@ == k by {
                if k == key@ {
                    match found {
                        Some(i) => assert(self.keys@[i as int]@ == k),
                        None => assert(self.keys@[old_self.keys@.len() as int]@ == k),
                    }
                } else {
                    assert(old_self.map@.contains_key(k));
                    let i = choose|i: int|
                        0 <= i < old_self.keys@.len() && #[trigger] old_self.keys@[i]@ == k;
                    assert(self.keys@[i]@ == k);
                }
            }
            let ki = match found {
                Some(i) => i as int,
                None => old_self.keys@.len() as int,
            };
            assert(self.keys@[ki]@ == key@);
            self.lemma_entry_of_at(ki);
            assert forall|k: Seq<char>|
                k != key@ && #[trigger] old_self.map@.contains_key(k) implies self.entry_of(k)
                == old_self.entry_of(k) by {
                let i = choose|i: int|
                    0 <= i < old_self.keys@.len() && #[trigger] old_self.keys@[i]@ == k;
                old_self.lemma_entry_of_at(i);
                assert(self.keys@[i]@ == k);
                self.lemma_entry_of_at(i);
            }
        }
    }

    /// Takes `key` out of the index, where it is live.
    fn remove_entry(&mut self, key: &String)
        requires
            old(self).wf(),
        ensures
            final(self).faithful() == old(self).faithful(),
            final(self).wf(),
            final(self)@ == old(self)@.remove(key@),
            final(self).active() == old(self).active(),
            final(self).files() == old(self).files(),
            final(self).written() == old(self).written(),
            final(self).dead() == old(self).dead_after_write(key@),
            final(self).policy() == old(self).policy(),
            final(self).size_limit() == old(self).size_limit(),
            final(self).compacting() == old(self).compacting(),
            forall|k: Seq<char>|
                k != key@ && #[trigger] old(self)@.contains_key(k) ==> final(self).entry_of(k)
                    == old(self).entry_of(k),
    {
        let ghost old_self = *self;
        let i = match self.find(key) {
            Some(i) => i,
            None => {
                assert(self.map@.remove(key@) =~= self.map@);
                return;
            },
        };
        if self.slots[i].file_idx != ACTIVE_FILE_IDX && self.dead_data_count < usize::MAX {
            self.dead_data_count = self.dead_data_count + 1;
        }
        self.keys.remove(i);
        self.slots.remove(i);
        self.map = Ghost(self.map@.remove(key@));
        proof {
            let n = old_self.keys@.len();
            assert forall|j: int| 0 <= j < self.keys@.len() implies #[trigger] self.points_to(
                self.keys@[j]@,
                self.slots@[j],
            ) by {
                let oj = if j < i {
                    j
                } else {
                    j + 1
                };
                assert(self.keys@[j] == old_self.keys@[oj]);
                assert(self.slots@[j] == old_self.slots@[oj]);
                assert(old_self.points_to(old_self.keys@[oj]@, old_self.slots@[oj]));
                assert(old_self.keys@[oj]@ != key@) by {
                    if oj < i {
                        assert(old_self.keys@[oj]@ != old_self.keys@[i as int]@);
                    } else {
                        assert(old_self.keys@[i as int]@ != old_self.keys@[oj]@);
                    }
                }
            }
            assert forall|a: int, b: int|
                0 <= a < b < self.keys@.len() implies #[trigger] self.keys@[a]@
                != #[trigger] self.keys@[b]@ by {
                let oa = if a < i {
                    a
                } else {
                    a + 1
                };
                let ob = if b < i {
                    b
                } else {
                    b + 1
                };
                assert(self.keys@[a] == old_self.keys@[oa]);
                assert(self.keys@[b] == old_self.keys@[ob]);
                assert(old_self.keys@[oa]@ != old_self.keys@[ob]@);
            }
            assert forall|k: Seq<char>| #[trigger] self.map@.contains_key(k) implies exists|j: int|
                0 <= j < self.keys@.len() && #[trigger] self.keys@[j]@ == k by {
                let oj = choose|oj: int| 0 <= oj < n && #[trigger] old_self.keys@[oj]@ == k;
                assert(oj != i);
                let j = if oj < i {
                    oj
                } else {
                    oj - 1
                };
                assert(self.keys@[j] == old_self.keys@[oj]);
            }
            assert forall|k: Seq<char>|
                k != key@ && #[trigger] old_self.map@.contains_key(k) implies self.entry_of(k)
                == old_self.entry_of(k) by {
                let oj = choose|oj: int| 0 <= oj < n && #[trigger] old_self.keys@[oj]@ == k;
                assert(oj != i);
                let j = if oj < i {
                    oj
                } else {
                    oj - 1
                };
                assert(self.keys@[j] == old_self.keys@[oj]);
                assert(self.slots@[j] == old_self.slots@[oj]);
                old_self.lemma_entry_of_at(oj);
                self.lemma_entry_of_at(j);
            }
        }
    }

    /// Records that a `Put` of `key` to `value` was appended to the active file: the index now
    /// sends `key` to it.
    pub fn commit_put(&mut self, key: String, value: &String)
        requires
            old(self).wf(),
            old(self).compacting() is None,
            Record::Put(key@, value@).encodable(),
            old(self).active().len() + encode_record(Record::Put(key@, value@)).len() <= u64::MAX,
        ensures
            final(self).entry_of(key@) == (IndexEntry {
                file_idx: ACTIVE_FILE_IDX,
                file_offset: old(self).active().len() as u64,
            }),
            forall|k: Seq<char>|
                k != key@ && #[trigger] old(self)@.contains_key(k) ==> final(self).entry_of(k)
                    == old(self).entry_of(k),
            old(self).log_wf() ==> final(self).log_wf(),
            final(self).faithful() == old(self).faithful(),
            final(self).wf(),
            final(self)@ == old(self)@.insert(key@, value@),
            final(self).active() == old(self).active() + encode_record(Record::Put(key@, value@)),
            final(self).files() == old(self).files(),
            final(self).written() == old(self).written().insert(key@),
            final(self).dead() == old(self).dead_after_write(key@),
            final(self).policy() == old(self).policy(),
            final(self).size_limit() == old(self).size_limit(),
            final(self).compacting() is None,
    {
        let ghost rec = Record::Put(key@, value@);
        let len = HEADER_BYTES + key.as_str().len() + value.as_str().len();
        let entry = IndexEntry { file_idx: ACTIVE_FILE_IDX, file_offset: self.active_len };
        let ghost before = *self;
        self.extend_active(Ghost(encode_record(rec)), len as u64);
        assert(record_at(self.active@, entry.file_offset as int, rec)) by {
            assert(self.active@.subrange(
                entry.file_offset as int,
                entry.file_offset + encode_record(rec).len(),
            ) =~= encode_record(rec));
        }
        proof {
            assert(self.dead_after_write(key@) == before.dead_after_write(key@));
        }
        let ghost mid = *self;
        self.insert_entry(key, entry, Ghost(value@));
        proof {
            if before.log_wf() {
                let z = replay_files(Map::empty(), before.files());
                lemma_replay_files_push(Map::empty(), before.files(), before.active());
                lemma_replay_files_push(Map::empty(), before.files(), self.active());
                lemma_replay_append(z, before.active(), rec);
                assert(self.map@ =~= before.map@.insert(key@, value@));
                assert forall|k: Seq<char>|
                    #[trigger] self.map@.contains_key(k) && touched(self.active@).contains(k)
                        implies self.entry_of(k).file_idx == ACTIVE_FILE_IDX by {
                    if k != key@ {
                        assert(mid.entry_of(k) == before.entry_of(k));
                    }
                }
                assert forall|k: Seq<char>|
                    #[trigger] self.map@.contains_key(k) && self.entry_of(k).file_idx
                        == ACTIVE_FILE_IDX implies touched(self.active@).contains(k) by {
                    if k != key@ {
                        assert(mid.entry_of(k) == before.entry_of(k));
                    }
                }
            }
        }
    }

    /// Records that an `Rm` of live key `key` was appended to the active file: the key leaves
    /// the index.
    pub fn commit_remove(&mut self, key: &String)
        requires
            old(self).wf(),
            old(self).compacting() is None,
            Record::Rm(key@).encodable(),
            old(self).active().len() + encode_record(Record::Rm(key@)).len() <= u64::MAX,
        ensures
            forall|k: Seq<char>|
                k != key@ && #[trigger] old(self)@.contains_key(k) ==> final(self).entry_of(k)
                    == old(self).entry_of(k),
            old(self).log_wf() ==> final(self).log_wf(),
            final(self).faithful() == old(self).faithful(),
            final(self).wf(),
            final(self)@ == old(self)@.remove(key@),
            final(self).active() == old(self).active() + encode_record(Record::Rm(key@)),
            final(self).files() == old(self).files(),
            final(self).written() == old(self).written(),
            final(self).dead() == old(self).dead_after_write(key@),
            final(self).policy() == old(self).policy(),
            final(self).size_limit() == old(self).size_limit(),
            final(self).compacting() is None,
    {
        let ghost rec = Record::Rm(key@);
        let len = HEADER_BYTES + key.as_str().len();
        let ghost before = *self;
        self.extend_active(Ghost(encode_record(rec)), len as u64);
        proof {
            assert(self.dead_after_write(key@) == before.dead_after_write(key@));
        }
        let ghost mid = *self;
        self.remove_entry(key);
        proof {
            if before.log_wf() {
                let z = replay_files(Map::empty(), before.files());
                lemma_replay_files_push(Map::empty(), before.files(), before.active());
                lemma_replay_files_push(Map::empty(), before.files(), self.active());
                lemma_replay_append(z, before.active(), rec);
                assert forall|k: Seq<char>|
                    #[trigger] self.map@.contains_key(k) && touched(self.active@).contains(k)
                        implies self.entry_of(k).file_idx == ACTIVE_FILE_IDX by {
                    assert(mid.entry_of(k) == before.entry_of(k));
                }
                assert forall|k: Seq<char>|
                    #[trigger] self.map@.contains_key(k) && self.entry_of(k).file_idx
                        == ACTIVE_FILE_IDX implies touched(self.active@).contains(k) by {
                    assert(mid.entry_of(k) == before.entry_of(k));
                }
            }
        }
    }

    /// Replays one log file into the index: the files of a directory are loaded in order, the
    /// immutable ones first and the active one last. Each `Put` sends its key to the record and
    /// each `Rm` takes its key out. A `Get`, or bytes that do not decode to records to the very
    /// end, make the log corrupt.
    #[verifier::rlimit(40)]
    pub fn load_file(&mut self, bytes: &[u8], is_active: bool) -> (r: Result<(), Error>)
        requires
            old(self).wf(),
            old(self).compacting() is None,
            old(self).active().len() == 0,
            !is_active ==> old(self).files().len() + 1 < usize::MAX,
        ensures
            r is Ok <==> loadable(bytes@),
            r is Err ==> r == Err::<(), Error>(Error::CorruptLog),
            old(self).log_wf() && r is Ok ==> final(self).log_wf(),
            final(self).faithful() == old(self).faithful(),
            final(self).wf(),
            final(self).compacting() is None,
            final(self).policy() == old(self).policy(),
            final(self).size_limit() == old(self).size_limit(),
            is_active ==> final(self).active() == bytes@ && final(self).files() == old(
                self,
            ).files(),
            !is_active ==> final(self).active().len() == 0 && final(self).files() == old(
                self,
            ).files().push(bytes@),
            r is Ok ==> final(self)@ == replay(old(self)@, bytes@),
    {
        let ghost old_self = *self;
        let slot = if is_active {
            ACTIVE_FILE_IDX
        } else {
            self.immutable_files
        };
        if is_active {
            self.extend_active(Ghost(bytes@), bytes.len() as u64);
            assert(self.active@ =~= bytes@);
            assert(self.wf());
        } else {
            proof {
                self.lemma_append_active(Seq::empty());
            }
            self.files = Ghost(self.files@.push(bytes@));
            self.immutable_files = self.immutable_files + 1;
            proof {
                assert forall|j: int| 0 <= j < self.keys@.len() implies #[trigger] self.points_to(
                    self.keys@[j]@,
                    self.slots@[j],
                ) by {
                    assert(old_self.points_to(old_self.keys@[j]@, old_self.slots@[j]));
                    let e = self.slots@[j];
                    if e.file_idx != ACTIVE_FILE_IDX {
                        assert(self.files@[e.file_idx as int] == old_self.files@[e.file_idx as int]);
                    }
                }
                assert(self.keys@ == old_self.keys@);
                assert(self.wf());
            }
        }
        assert(self.file_of(slot) == bytes@);
        assert(bytes@.subrange(0, bytes@.len() as int) =~= bytes@);
        proof {
            assert(bytes@.subrange(0, 0) =~= Seq::<u8>::empty());
            assert(whole_records_len(Seq::<u8>::empty()) == 0);
            assert(touched(Seq::<u8>::empty()) == Set::<Seq<char>>::empty());
            if old_self.log_wf() {
                assert forall|k: Seq<char>|
                    #[trigger] self@.contains_key(k) && self.entry_of(k).file_idx
                        == ACTIVE_FILE_IDX implies is_active && touched(Seq::<u8>::empty()).contains(
                    k,
                ) by {
                    assert(touched(old_self.active@).contains(k));
                }
            }
        }
        let mut reader = Reader::new();
        let mut pos: usize = 0;
        assert(bytes@.subrange(0, bytes@.len() as int) =~= bytes@);
        while pos < bytes.len()
            invariant
                self.wf(),
                self.compacting() is None,
                self.file_of(slot) == bytes@,
                self.slot_ok(slot),
                self.policy() == old(self).policy(),
                self.size_limit() == old(self).size_limit(),
                self.faithful() == old(self).faithful(),
                is_active ==> self.active() == bytes@ && self.files() == old(self).files(),
                !is_active ==> self.active().len() == 0 && self.files() == old(self).files().push(bytes@),
                pos <= bytes@.len(),
                replay(self@, bytes@.subrange(pos as int, bytes@.len() as int)) == replay(
                    old(self)@,
                    bytes@,
                ),
                whole(bytes@.subrange(0, pos as int)),
                pos + whole_records_len(bytes@.subrange(pos as int, bytes@.len() as int))
                    == whole_records_len(bytes@),
                has_get(bytes@.subrange(pos as int, bytes@.len() as int)) == has_get(bytes@),
                slot == ACTIVE_FILE_IDX <==> is_active,
                old(self).log_wf() ==> self.tracks_active(
                    touched(bytes@.subrange(0, pos as int)),
                    is_active,
                ),
            decreases bytes@.len() - pos,
        {
            let rest = vstd::slice::slice_subrange(bytes, pos, bytes.len());
            let rr = match reader.read_cmd(rest) {
                Ok(Some(rr)) => rr,
                _ => {
                    assert(whole_records_len(rest@) == 0);
                    return Err(Error::CorruptLog);
                },
            };
            let n = rr.bytes_read();
            let ghost rec = rr@.0;
            let cmd = rr.into_cmd();
            let ghost before = *self;
            proof {
                lemma_decoded_is_encoded(rest@);
                assert(bytes@.subrange(0, pos + n) =~= bytes@.subrange(0, pos as int)
                    + encode_record(rec)) by {
                    assert(bytes@.subrange(pos as int, pos + n) =~= rest@.subrange(0, n as int));
                }
                lemma_replay_append(Map::empty(), bytes@.subrange(0, pos as int), rec);
                assert(rest@.len() <= usize::MAX);
                let tail = rest@.subrange(n as int, rest@.len() as int);
                assert(tail =~= bytes@.subrange(pos + n, bytes@.len() as int));
                assert(n > 0);
            }
            match cmd {
                Cmd::Put(k, v) => {
                    proof {
                        assert(record_at(bytes@, pos as int, rec)) by {
                            assert(bytes@.subrange(pos as int, pos + n) =~= rest@.subrange(0, n as int));
                        }
                    }
                    let entry = IndexEntry { file_idx: slot, file_offset: pos as u64 };
                    self.insert_entry(k, entry, Ghost(v@));
                },
                Cmd::Rm(k) => {
                    self.remove_entry(&k);
                },
                Cmd::Get(_) => {
                    return Err(Error::CorruptLog);
                },
            }
            proof {
                if old(self).log_wf() {
                    let t = touched(bytes@.subrange(0, pos as int));
                    Self::lemma_track_step(before, *self, t, rec, slot, is_active);
                    assert(t.insert(rec.key()) =~= t + crate::laws::written_keys(rec));
                }
            }
            pos = pos + n;
        }
        proof {
            assert(bytes@.subrange(pos as int, bytes@.len() as int) =~= Seq::<u8>::empty());
            assert(whole_records_len(Seq::<u8>::empty()) == 0);
            assert(!has_get(Seq::<u8>::empty()));
            if old_self.log_wf() {
                assert(bytes@.subrange(0, pos as int) =~= bytes@);
                assert(bytes@.subrange(pos as int, bytes@.len() as int) =~= Seq::<u8>::empty());
                replay_empty(self@);
                replay_empty(old_self@);
                lemma_replay_files_push(Map::empty(), old_self.files@, old_self.active@);
                assert(old_self.active@ =~= Seq::<u8>::empty());
                let z = replay_files(Map::empty(), old_self.files@);
                assert(self.tracks_active(touched(bytes@), is_active));
                if is_active {
                    lemma_replay_files_push(Map::empty(), old_self.files@, bytes@);
                    assert(self.active@ == bytes@);
                    assert(whole(self.active@));
                    assert(replay_files(Map::empty(), self.files@.push(self.active@)) == self.map@);
                    assert(self.tracks_active(touched(self.active@), true));
                } else {
                    assert(self.active@ =~= Seq::<u8>::empty());
                    assert(touched(Seq::<u8>::empty()) == Set::<Seq<char>>::empty());
                    assert(whole_records_len(Seq::<u8>::empty()) == 0);
                    assert(self.tracks_active(touched(self.active@), true));
                    lemma_replay_files_push(Map::empty(), old_self.files@, bytes@);
                    lemma_replay_files_push(Map::empty(), old_self.files@.push(bytes@), Seq::empty());
                    replay_empty(replay_files(Map::empty(), old_self.files@.push(bytes@)));
                    assert forall|i: int| 0 <= i < self.files@.len() implies whole(
                        #[trigger] self.files@[i],
                    ) by {
                        if i < old_self.files@.len() {
                            assert(self.files@[i] == old_self.files@[i]);
                        }
                    }
                    assert(replay_files(Map::empty(), self.files@.push(self.active@)) == self.map@);
                }
            }
        }
        Ok(())
    }

    /// The value in the record that was read for `key`. The record must be a `Put` of `key`;
    /// anything else means the log is corrupt.
    pub fn check_read(&mut self, key: &String, bytes: &[u8]) -> (r: Result<String, Error>)
        requires
            old(self).wf(),
        ensures
            old(self).log_wf() ==> final(self).log_wf(),
            final(self).wf(),
            final(self)@ == old(self)@,
            final(self).files() == old(self).files(),
            final(self).active() == old(self).active(),
            final(self).written() == old(self).written(),
            final(self).dead() == old(self).dead(),
            final(self).policy() == old(self).policy(),
            final(self).size_limit() == old(self).size_limit(),
            final(self).compacting() == old(self).compacting(),
            forall|k: Seq<char>| #[trigger] final(self).entry_of(k) == old(self).entry_of(k),
            final(self).faithful() == (old(self).faithful() && (old(self)@.contains_key(key@)
                ==> starts_with_record(bytes@, Record::Put(key@, old(self)@[key@])))),
            r is Ok <==> (decode_frame(bytes@) matches Ok(Some((Record::Put(k, _), _))) && k
                == key@),
            r matches Ok(v) ==> (decode_frame(bytes@) matches Ok(Some((Record::Put(_, w), _)))
                && w == v@),
            r matches Err(e) ==> e == Error::CorruptLog,
            final(self).faithful() && old(self)@.contains_key(key@) ==> (r matches Ok(v) && v@
                == old(self)@[key@]),
    {
        proof {
            if self@.contains_key(key@) && starts_with_record(
                bytes@,
                Record::Put(key@, self@[key@]),
            ) {
                let rec = Record::Put(key@, self@[key@]);
                let i = choose|i: int| 0 <= i < self.keys@.len() && #[trigger] self.keys@[i]@ == key@;
                assert(self.points_to(self.keys@[i]@, self.slots@[i]));
                let len = encode_record(rec).len() as int;
                let rest = bytes@.subrange(len, bytes@.len() as int);
                lemma_round_trip(rec, rest);
                assert(bytes@ =~= encode_record(rec) + rest);
            }
        }
        let ghost f = self.faithful@ && (self.map@.contains_key(key@) ==> starts_with_record(
            bytes@,
            Record::Put(key@, self.map@[key@]),
        ));
        let ghost old_self = *self;
        self.faithful = Ghost(f);
        proof {
            assert forall|j: int| 0 <= j < self.keys@.len() implies #[trigger] self.points_to(
                self.keys@[j]@,
                self.slots@[j],
            ) by {
                assert(old_self.points_to(old_self.keys@[j]@, old_self.slots@[j]));
            }
            assert forall|k: Seq<char>| #[trigger] self.entry_of(k) == old_self.entry_of(k) by {}
            if old_self.log_wf() {
                match self.compacting {
                    Some(n) => {
                        assert(self.map_in_slot(n) =~= old_self.map_in_slot(n));
                    },
                    None => {},
                }
                assert(self.tracks_active(touched(self.active@), true));
            }
        }
        let mut reader = Reader::new();
        match reader.read_cmd(bytes) {
            Ok(Some(rr)) => match rr.into_cmd() {
                Cmd::Put(k, v) => {
                    if k == *key {
                        Ok(v)
                    } else {
                        Err(Error::CorruptLog)
                    }
                },
                _ => Err(Error::CorruptLog),
            },
            _ => Err(Error::CorruptLog),
        }
    }

    /// Starts a compaction: a new, empty immutable file is opened in the next slot to receive
    /// the live records of all the others. Gives the positions of the entries that must be
    /// moved to it.
    pub fn begin_compaction(&mut self) -> (r: Vec<usize>)
        requires
            old(self).wf(),
            old(self).compacting() is None,
            old(self).files().len() + 2 < usize::MAX,
        ensures
            old(self).log_wf() ==> final(self).log_wf(),
            final(self).faithful() == old(self).faithful(),
            final(self).wf(),
            final(self).compacting() == Some(old(self).files().len() as usize),
            final(self).files() == old(self).files().push(Seq::<u8>::empty()),
            final(self)@ == old(self)@,
            final(self).active() == old(self).active(),
            final(self).written() == old(self).written(),
            final(self).dead() == old(self).dead(),
            final(self).policy() == old(self).policy(),
            final(self).size_limit() == old(self).size_limit(),
            final(self).len_spec() == old(self).len_spec(),
            forall|i: int|
                0 <= i < old(self).len_spec() ==> #[trigger] final(self).entry_spec(i) == old(
                    self,
                ).entry_spec(i),
            forall|j: int|
                0 <= j < r@.len() ==> #[trigger] r@[j] < old(self).len_spec() && old(
                    self,
                ).entry_spec(r@[j] as int).1.file_idx < old(self).files().len(),
            forall|i: int|
                0 <= i < old(self).len_spec() && #[trigger] old(self).entry_spec(i).1.file_idx
                    != ACTIVE_FILE_IDX ==> r@.contains(i as usize),
            forall|a: int, b: int| 0 <= a < b < r@.len() ==> #[trigger] r@[a] < #[trigger] r@[b],
    {
        let ghost old_self = *self;
        let slot = self.immutable_files;
        self.files = Ghost(self.files@.push(Seq::empty()));
        self.immutable_files = slot + 1;
        self.compacting = Some(slot);
        self.compacted_len = 0;
        proof {
            assert forall|j: int| 0 <= j < self.keys@.len() implies #[trigger] self.points_to(
                self.keys@[j]@,
                self.slots@[j],
            ) by {
                assert(old_self.points_to(old_self.keys@[j]@, old_self.slots@[j]));
                let e = self.slots@[j];
                if e.file_idx != ACTIVE_FILE_IDX {
                    assert(self.files@[e.file_idx as int] == old_self.files@[e.file_idx as int]);
                }
            }
        }
        let mut targets: Vec<usize> = Vec::new();
        let mut i: usize = 0;
        while i < self.slots.len()
            invariant
                self.slots@ == old_self.slots@,
                self.keys@ == old_self.keys@,
                self.keys@.len() == self.slots@.len(),
                i <= self.slots@.len(),
                forall|j: int|
                    0 <= j < targets@.len() ==> #[trigger] targets@[j] < i
                        && self.slots@[targets@[j] as int].file_idx != ACTIVE_FILE_IDX,
                forall|j: int|
                    0 <= j < i && #[trigger] self.slots@[j].file_idx != ACTIVE_FILE_IDX
                        ==> targets@.contains(j as usize),
                forall|a: int, b: int|
                    0 <= a < b < targets@.len() ==> #[trigger] targets@[a] < #[trigger] targets@[b],
            decreases self.slots@.len() - i,
        {
            let ghost before = targets@;
            if self.slots[i].file_idx != ACTIVE_FILE_IDX {
                targets.push(i);
                assert(targets@[targets@.len() - 1] == i);
            }
            proof {
                assert forall|j: int|
                    0 <= j < i + 1 && #[trigger] self.slots@[j].file_idx
                        != ACTIVE_FILE_IDX implies targets@.contains(j as usize) by {
                    if j < i {
                        let w = choose|w: int| 0 <= w < before.len() && before[w] == j as usize;
                        assert(targets@[w] == j as usize);
                    } else {
                        assert(targets@[targets@.len() - 1] == i);
                    }
                }
                assert forall|a: int, b: int|
                    0 <= a < b < targets@.len() implies #[trigger] targets@[a] < #[trigger] targets@[b] by {
                    if b < before.len() {
                        assert(targets@[a] == before[a] && targets@[b] == before[b]);
                    } else {
                        assert(targets@[a] == before[a]);
                        assert(before[a] < i);
                    }
                }
                assert forall|j: int| 0 <= j < targets@.len() implies #[trigger] targets@[j] < i + 1
                    && self.slots@[targets@[j] as int].file_idx != ACTIVE_FILE_IDX by {
                    if j < before.len() {
                        assert(targets@[j] == before[j]);
                    }
                }
            }
            i = i + 1;
        }
        proof {
            assert forall|j: int| 0 <= j < targets@.len() implies #[trigger] targets@[j]
                < old_self.keys@.len() && old_self.slots@[targets@[j] as int].file_idx
                < old_self.files@.len() by {
                let t = targets@[j] as int;
                assert(old_self.points_to(old_self.keys@[t]@, old_self.slots@[t]));
            }
            if old_self.log_wf() {
                let f = old_self.files@;
                lemma_replay_files_push(Map::empty(), f, Seq::empty());
                lemma_replay_files_push(Map::empty(), f.push(Seq::empty()), old_self.active@);
                lemma_replay_files_push(Map::empty(), f, old_self.active@);
                replay_empty(replay_files(Map::empty(), f));
                replay_empty(Map::empty());
                assert(whole_records_len(Seq::<u8>::empty()) == 0);
                assert forall|i: int| 0 <= i < self.files@.len() implies whole(
                    #[trigger] self.files@[i],
                ) by {
                    if i < slot {
                        assert(self.files@[i] == old_self.files@[i]);
                    }
                }
                assert(self.map_in_slot(slot) =~= Map::<Seq<char>, Seq<char>>::empty()) by {
                    assert forall|k: Seq<char>| #[trigger] self.map@.contains_key(k) implies self.entry_of(
                        k,
                    ).file_idx != slot by {
                        let c = choose|c: int|
                            0 <= c < self.keys@.len() && #[trigger] self.keys@[c]@ == k;
                        assert(old_self.points_to(old_self.keys@[c]@, old_self.slots@[c]));
                    }
                }
                assert(self.files@[slot as int] == Seq::<u8>::empty());
            }
        }
        targets
    }

    /// Moves the record of the entry at position `i`, read from its immutable file as `bytes`,
    /// to the file that the compaction writes. Gives the bytes to append to that file. The record
    /// must be a `Put` of the entry's key; anything else means the log is corrupt, and nothing
    /// changes.
    #[verifier::rlimit(60)]
    pub fn relocate(&mut self, i: usize, bytes: &[u8]) -> (r: Result<Vec<u8>, Error>)
        requires
            old(self).wf(),
            old(self).compacting() matches Some(n) && 0 <= i < old(self).len_spec() && old(
                self,
            ).entry_spec(i as int).1.file_idx < n && old(self).files()[n as int].len()
                + bytes@.len() <= u64::MAX,
        ensures
            old(self).log_wf() ==> final(self).log_wf(),
            final(self).wf(),
            final(self).compacting() == old(self).compacting(),
            final(self).active() == old(self).active(),
            final(self).written() == old(self).written(),
            final(self).dead() == old(self).dead(),
            final(self).policy() == old(self).policy(),
            final(self).size_limit() == old(self).size_limit(),
            final(self).len_spec() == old(self).len_spec(),
            r is Err ==> *final(self) == *old(self) && r == Err::<Vec<u8>, Error>(Error::CorruptLog),
            r is Ok <==> (decode_frame(bytes@) matches Ok(Some((Record::Put(k, _), _))) && k
                == old(self).entry_spec(i as int).0),
            r matches Ok(out) ==> ({
                let n = old(self).compacting()->Some_0;
                let k = old(self).entry_spec(i as int).0;
                let v = match decode_frame(bytes@) {
                    Ok(Some((Record::Put(_, w), _))) => w,
                    _ => Seq::empty(),
                };
                &&& out@ == encode_record(Record::Put(k, v))
                &&& final(self)@ == old(self)@.insert(k, v)
                &&& final(self).files() == old(self).files().update(
                    n as int,
                    old(self).files()[n as int] + out@,
                )
                &&& final(self).entry_spec(i as int) == (
                    k,
                    IndexEntry { file_idx: n, file_offset: old(self).files()[n as int].len() as u64 },
                )
                &&& forall|j: int|
                    0 <= j < old(self).len_spec() && j != i ==> #[trigger] final(self).entry_spec(j)
                        == old(self).entry_spec(j)
            }),
            starts_with_record(
                bytes@,
                Record::Put(old(self).entry_spec(i as int).0, old(self)@[old(self).entry_spec(i as int).0]),
            ) ==> r is Ok && final(self)@ == old(self)@,
            r is Ok ==> final(self).faithful() == (old(self).faithful() && starts_with_record(
                bytes@,
                Record::Put(old(self).entry_spec(i as int).0, old(self)@[old(self).entry_spec(i as int).0]),
            )),
            r is Ok && final(self).faithful() ==> final(self)@ == old(self)@,
    {
        let ghost old_self = *self;
        let n = match self.compacting {
            Some(n) => n,
            None => {
                return Err(Error::CorruptLog);
            },
        };
        proof {
            let k = self.keys@[i as int]@;
            assert(self.points_to(k, self.slots@[i as int]));
            if starts_with_record(bytes@, Record::Put(k, self.map@[k])) {
                let rec = Record::Put(k, self.map@[k]);
                let len = encode_record(rec).len() as int;
                let rest = bytes@.subrange(len, bytes@.len() as int);
                lemma_round_trip(rec, rest);
                assert(bytes@ =~= encode_record(rec) + rest);
            }
        }
        let blen = bytes.len();
        let mut reader = Reader::new();
        let rr = match reader.read_cmd(bytes) {
            Ok(Some(rr)) => rr,
            _ => {
                return Err(Error::CorruptLog);
            },
        };
        let nread = rr.bytes_read();
        let ghost rec = rr@.0;
        proof {
            lemma_decoded_is_encoded(bytes@);
        }
        let (k, v) = match rr.into_cmd() {
            Cmd::Put(k, v) => (k, v),
            _ => {
                return Err(Error::CorruptLog);
            },
        };
        if !(k == self.keys[i]) {
            return Err(Error::CorruptLog);
        }
        let mut out: Vec<u8> = Vec::new();
        let cmd = Cmd::Put(k, v);
        let written = cmd.write(&mut out);
        let offset = self.compacted_len;
        self.compacted_len = self.compacted_len + written as u64;
        let ghost new_file = self.files@[n as int] + out@;
        proof {
            assert(out@ == bytes@.subrange(0, nread as int));
        }
        self.files = Ghost(self.files@.update(n as int, new_file));
        let ghost value = cmd@->Put_1;
        self.map = Ghost(self.map@.insert(self.keys@[i as int]@, value));
        let entry = IndexEntry { file_idx: n, file_offset: offset };
        self.slots.set(i, entry);
        let ghost f = old_self.faithful@ && starts_with_record(
            bytes@,
            Record::Put(old_self.keys@[i as int]@, old_self.map@[old_self.keys@[i as int]@]),
        );
        self.faithful = Ghost(f);
        proof {
            let key = self.keys@[i as int]@;
            assert(record_at(new_file, offset as int, Record::Put(key, value))) by {
                assert(new_file.subrange(offset as int, offset + out@.len()) =~= out@);
            }
            assert forall|j: int| 0 <= j < self.keys@.len() implies #[trigger] self.points_to(
                self.keys@[j]@,
                self.slots@[j],
            ) by {
                if j != i {
                    assert(old_self.points_to(old_self.keys@[j]@, old_self.slots@[j]));
                    if j < i {
                        assert(old_self.keys@[j]@ != old_self.keys@[i as int]@);
                    } else {
                        assert(old_self.keys@[i as int]@ != old_self.keys@[j]@);
                    }
                    let e = self.slots@[j];
                    if e.file_idx != ACTIVE_FILE_IDX && e.file_idx != n {
                        assert(self.files@[e.file_idx as int] == old_self.files@[e.file_idx as int]);
                    } else if e.file_idx == n {
                        lemma_record_at_append(
                            old_self.files@[n as int],
                            out@,
                            e.file_offset as int,
                            Record::Put(self.keys@[j]@, self.map@[self.keys@[j]@]),
                        );
                    }
                }
            }
            assert forall|k: Seq<char>| #[trigger] self.map@.contains_key(k) implies exists|j: int|
                0 <= j < self.keys@.len() && #[trigger] self.keys@[j]@ == k by {
                if k == key {
                    assert(self.keys@[i as int]@ == k);
                } else {
                    assert(old_self.map@.contains_key(k));
                }
            }
            if starts_with_record(bytes@, Record::Put(key, old_self.map@[key])) {
                assert(self.map@ =~= old_self.map@);
            }
            if old_self.log_wf() {
                self.lemma_entry_of_at(i as int);
                old_self.lemma_entry_of_at(i as int);
                assert(old_self.points_to(key, old_self.slots@[i as int]));
                lemma_decoded_is_encoded(bytes@);
                let put = Record::Put(key, value);
                assert(out@ == encode_record(put));
                let f0 = old_self.files@.subrange(0, n as int);
                let cn = old_self.files@[n as int];
                assert(old_self.files@ =~= f0.push(cn));
                assert(self.files@ =~= f0.push(cn + out@));
                let z = replay_files(Map::empty(), f0);
                lemma_replay_append(z, cn, put);
                lemma_replay_append(Map::empty(), cn, put);
                assert(!touched(old_self.active@).contains(key));
                lemma_replay_insert_untouched(replay(z, cn), old_self.active@, key, value);
                lemma_replay_files_push(Map::empty(), f0, cn);
                lemma_replay_files_push(Map::empty(), f0.push(cn), old_self.active@);
                lemma_replay_files_push(Map::empty(), f0, cn + out@);
                lemma_replay_files_push(Map::empty(), f0.push(cn + out@), self.active@);
                assert forall|j: int| 0 <= j < self.files@.len() implies whole(
                    #[trigger] self.files@[j],
                ) by {
                    if j != n {
                        assert(self.files@[j] == old_self.files@[j]);
                    }
                }
                assert forall|k: Seq<char>| k != key && #[trigger] old_self.map@.contains_key(k) implies self.entry_of(
                    k,
                ) == old_self.entry_of(k) by {
                    let c = choose|c: int|
                        0 <= c < old_self.keys@.len() && #[trigger] old_self.keys@[c]@ == k;
                    old_self.lemma_entry_of_at(c);
                    assert(self.keys@[c]@ == k);
                    self.lemma_entry_of_at(c);
                }
                assert(self.map_in_slot(n) =~= old_self.map_in_slot(n).insert(key, value));
                assert(self.tracks_active(touched(self.active@), true));
            }
        }
        Ok(out)
    }

    /// Ends a compaction: once every entry names either the active file or the compacted one,
    /// the compacted file becomes the only immutable file, in slot 0, and no record counts as
    /// dead any more. The caller then unlinks the files it replaced. Where an entry still names
    /// an older file the log is corrupt, and nothing changes.
    pub fn finish_compaction(&mut self) -> (r: Result<(), Error>)
        requires
            old(self).wf(),
            old(self).compacting() is Some,
        ensures
            old(self).log_wf() ==> final(self).log_wf(),
            final(self).faithful() == old(self).faithful(),
            final(self).wf(),
            final(self)@ == old(self)@,
            final(self).active() == old(self).active(),
            final(self).written() == old(self).written(),
            final(self).policy() == old(self).policy(),
            final(self).size_limit() == old(self).size_limit(),
            r is Err ==> *final(self) == *old(self) && r == Err::<(), Error>(Error::CorruptLog),
            r is Ok <==> forall|k: Seq<char>|
                #[trigger] old(self)@.contains_key(k) ==> old(self).entry_of(k).file_idx
                    == ACTIVE_FILE_IDX || old(self).entry_of(k).file_idx == old(
                    self,
                ).compacting()->Some_0,
            r is Ok ==> {
                &&& final(self).compacting() is None
                &&& final(self).files() == Seq::<Seq<u8>>::empty().push(old(self).files()[old(self).compacting()->Some_0 as int])
                &&& final(self).dead() == 0
                &&& forall|k: Seq<char>|
                    #[trigger] final(self)@.contains_key(k) ==> final(self).entry_of(k)
                        == (if old(self).entry_of(k).file_idx == ACTIVE_FILE_IDX {
                        old(self).entry_of(k)
                    } else {
                        IndexEntry { file_idx: 0, file_offset: old(self).entry_of(k).file_offset }
                    })
            },
    {
        let ghost old_self = *self;
        let n = match self.compacting {
            Some(n) => n,
            None => {
                return Err(Error::CorruptLog);
            },
        };
        let mut i: usize = 0;
        while i < self.slots.len()
            invariant
                *self == old_self,
                old_self.wf(),
                old_self.compacting == Some(n),
                self.keys@.len() == self.slots@.len(),
                i <= self.slots@.len(),
                forall|j: int|
                    0 <= j < i ==> #[trigger] self.slots@[j].file_idx == ACTIVE_FILE_IDX
                        || self.slots@[j].file_idx == n,
            decreases self.slots@.len() - i,
        {
            let f = self.slots[i].file_idx;
            if f != ACTIVE_FILE_IDX && f != n {
                proof {
                    let k = self.keys@[i as int]@;
                    assert(self.points_to(k, self.slots@[i as int]));
                    let c = choose|c: int| 0 <= c < self.keys@.len() && #[trigger] self.keys@[c]@ == k;
                    assert(c == i) by {
                        if c < i {
                            assert(self.keys@[c]@ != self.keys@[i as int]@);
                        } else if c > i {
                            assert(self.keys@[i as int]@ != self.keys@[c]@);
                        }
                    }
                }
                return Err(Error::CorruptLog);
            }
            i = i + 1;
        }
        proof {
            assert forall|k: Seq<char>| #[trigger] old_self.map@.contains_key(k) implies old_self.entry_of(k).file_idx
                == ACTIVE_FILE_IDX || old_self.entry_of(k).file_idx == n by {
                let c = choose|c: int| 0 <= c < self.keys@.len() && #[trigger] self.keys@[c]@ == k;
                assert(self.slots@[c].file_idx == ACTIVE_FILE_IDX || self.slots@[c].file_idx == n);
            }
        }
        let mut i: usize = 0;
        while i < self.slots.len()
            invariant
                old_self.wf(),
                old_self.compacting == Some(n),
                self.keys@ == old_self.keys@,
                self.slots@.len() == old_self.slots@.len(),
                self.map == old_self.map,
                self.files == old_self.files,
                self.active == old_self.active,
                self.active_len == old_self.active_len,
                self.written == old_self.written,
                self.immutable_files == old_self.immutable_files,
                self.compaction_policy == old_self.compaction_policy,
                self.file_size_limit == old_self.file_size_limit,
                self.faithful == old_self.faithful,
                i <= self.slots@.len(),
                forall|j: int|
                    0 <= j < old_self.slots@.len() ==> #[trigger] old_self.slots@[j].file_idx
                        == ACTIVE_FILE_IDX || old_self.slots@[j].file_idx == n,
                forall|j: int|
                    0 <= j < i ==> #[trigger] self.slots@[j] == (if old_self.slots@[j].file_idx
                        == ACTIVE_FILE_IDX {
                        old_self.slots@[j]
                    } else {
                        IndexEntry { file_idx: 0, file_offset: old_self.slots@[j].file_offset }
                    }),
                forall|j: int| i <= j < self.slots@.len() ==> #[trigger] self.slots@[j] == old_self.slots@[j],
            decreases self.slots@.len() - i,
        {
            let e = self.slots[i];
            if e.file_idx != ACTIVE_FILE_IDX {
                self.slots.set(i, IndexEntry { file_idx: 0, file_offset: e.file_offset });
            }
            i = i + 1;
        }
        let ghost compacted = self.files@[n as int];
        self.files = Ghost(Seq::empty().push(compacted));
        self.immutable_files = 1;
        self.compacting = None;
        self.compacted_len = 0;
        self.dead_data_count = 0;
        proof {
            assert forall|j: int| 0 <= j < self.keys@.len() implies #[trigger] self.points_to(
                self.keys@[j]@,
                self.slots@[j],
            ) by {
                assert(old_self.points_to(old_self.keys@[j]@, old_self.slots@[j]));
            }
            assert forall|k: Seq<char>| #[trigger] self.map@.contains_key(k) implies self.entry_of(k)
                == (if old_self.entry_of(k).file_idx == ACTIVE_FILE_IDX {
                old_self.entry_of(k)
            } else {
                IndexEntry { file_idx: 0, file_offset: old_self.entry_of(k).file_offset }
            }) by {
                let c = choose|c: int| 0 <= c < self.keys@.len() && #[trigger] self.keys@[c]@ == k;
                assert(old_self.keys@[c]@ == k);
            }
            if old_self.log_wf() {
                let f0 = old_self.files@.subrange(0, n as int);
                let cn = old_self.files@[n as int];
                assert(old_self.files@ =~= f0.push(cn));
                let z = replay_files(Map::empty(), f0);
                let w = replay(z, cn);
                let c = old_self.map_in_slot(n);
                lemma_replay_files_push(Map::empty(), f0, cn);
                lemma_replay_files_push(Map::empty(), f0.push(cn), old_self.active@);
                assert forall|k: Seq<char>|
                    !touched(old_self.active@).contains(k) implies (#[trigger] c.contains_key(k)
                    == w.contains_key(k) && (c.contains_key(k) ==> c[k] == w[k])) by {
                    lemma_replay_untouched(w, old_self.active@, k);
                    if old_self.map@.contains_key(k) {
                        assert(old_self.entry_of(k).file_idx != ACTIVE_FILE_IDX);
                    }
                }
                assert(agree_outside(c, w, touched(old_self.active@)));
                lemma_replay_agree(c, w, old_self.active@);
                assert(Seq::<Seq<u8>>::empty().push(cn).drop_first() =~= Seq::<Seq<u8>>::empty());
                lemma_replay_files_push(Map::empty(), Seq::empty(), cn);
                lemma_replay_files_push(Map::empty(), Seq::empty().push(cn), self.active@);
                assert(replay_files(Map::empty(), Seq::<Seq<u8>>::empty()) == Map::<
                    Seq<char>,
                    Seq<char>,
                >::empty());
                assert(whole(self.files@[0]));
                assert(self.tracks_active(touched(self.active@), true));
            }
        }
        Ok(())
    }

    /// Whether the active file has grown past the size limit and must be frozen.
    pub fn needs_roll_over(&self) -> (r: bool)
        requires
            self.wf(),
        ensures
            r == (self.active().len() > self.size_limit()),
    {
        self.active_len > self.file_size_limit
    }

    /// Freezes the active file: it becomes the last immutable file, a new empty file becomes the
    /// active one, and the entries that named the active file now name its new slot.
    pub fn roll_over(&mut self)
        requires
            old(self).wf(),
            old(self).compacting() is None,
            old(self).files().len() + 1 < usize::MAX,
        ensures
            old(self).log_wf() ==> final(self).log_wf(),
            final(self).faithful() == old(self).faithful(),
            final(self).wf(),
            final(self)@ == old(self)@,
            final(self).files() == old(self).files().push(old(self).active()),
            final(self).active() == Seq::<u8>::empty(),
            final(self).written() == old(self).written(),
            final(self).dead() == old(self).dead(),
            final(self).policy() == old(self).policy(),
            final(self).size_limit() == old(self).size_limit(),
            final(self).compacting() is None,
            forall|k: Seq<char>|
                #[trigger] old(self)@.contains_key(k) ==> final(self).entry_of(k) == (if old(
                    self,
                ).entry_of(k).file_idx == ACTIVE_FILE_IDX {
                    IndexEntry {
                        file_idx: old(self).files().len() as usize,
                        file_offset: old(self).entry_of(k).file_offset,
                    }
                } else {
                    old(self).entry_of(k)
                }),
    {
        let ghost old_self = *self;
        let slot = self.immutable_files;
        let mut i: usize = 0;
        while i < self.slots.len()
            invariant
                self.keys@ == old_self.keys@,
                self.slots@.len() == old_self.slots@.len(),
                self.map == old_self.map,
                self.files == old_self.files,
                self.active == old_self.active,
                self.active_len == old_self.active_len,
                self.immutable_files == slot,
                self.written == old_self.written,
                self.dead_data_count == old_self.dead_data_count,
                self.compaction_policy == old_self.compaction_policy,
                self.file_size_limit == old_self.file_size_limit,
                self.compacting == old_self.compacting,
                self.compacted_len == old_self.compacted_len,
                self.faithful == old_self.faithful,
                old_self.compacting is None,
                i <= self.slots@.len(),
                forall|j: int|
                    0 <= j < i ==> #[trigger] self.slots@[j] == (if old_self.slots@[j].file_idx
                        == ACTIVE_FILE_IDX {
                        IndexEntry { file_idx: slot, file_offset: old_self.slots@[j].file_offset }
                    } else {
                        old_self.slots@[j]
                    }),
                forall|j: int| i <= j < self.slots@.len() ==> #[trigger] self.slots@[j] == old_self.slots@[j],
            decreases self.slots@.len() - i,
        {
            let e = self.slots[i];
            if e.file_idx == ACTIVE_FILE_IDX {
                self.slots.set(i, IndexEntry { file_idx: slot, file_offset: e.file_offset });
            }
            i = i + 1;
        }
        self.files = Ghost(self.files@.push(self.active@));
        self.active = Ghost(Seq::empty());
        self.active_len = 0;
        self.immutable_files = slot + 1;
        proof {
            assert forall|j: int| 0 <= j < self.keys@.len() implies #[trigger] self.points_to(
                self.keys@[j]@,
                self.slots@[j],
            ) by {
                assert(old_self.points_to(old_self.keys@[j]@, old_self.slots@[j]));
                if old_self.slots@[j].file_idx != ACTIVE_FILE_IDX {
                    assert(self.files@[old_self.slots@[j].file_idx as int] == old_self.files@[old_self.slots@[j].file_idx as int]);
                }
            }
            assert forall|k: Seq<char>| #[trigger] old_self.map@.contains_key(k) implies self.entry_of(
                k,
            ) == (if old_self.entry_of(k).file_idx == ACTIVE_FILE_IDX {
                IndexEntry { file_idx: slot, file_offset: old_self.entry_of(k).file_offset }
            } else {
                old_self.entry_of(k)
            }) by {
                let j = choose|j: int| 0 <= j < self.keys@.len() && #[trigger] self.keys@[j]@ == k;
                assert(old_self.keys@[j]@ == k);
            }
            if old_self.log_wf() {
                assert(whole_records_len(Seq::<u8>::empty()) == 0);
                assert(touched(Seq::<u8>::empty()) == Set::<Seq<char>>::empty());
                lemma_replay_files_push(
                    Map::empty(),
                    old_self.files@.push(old_self.active@),
                    Seq::empty(),
                );
                replay_empty(replay_files(Map::empty(), old_self.files@.push(old_self.active@)));
                assert forall|i: int| 0 <= i < self.files@.len() implies whole(
                    #[trigger] self.files@[i],
                ) by {
                    if i < slot {
                        assert(self.files@[i] == old_self.files@[i]);
                    }
                }
                assert forall|k: Seq<char>|
                    #[trigger] self.map@.contains_key(k) && self.entry_of(k).file_idx
                        == ACTIVE_FILE_IDX implies touched(self.active@).contains(k) by {
                    assert(old_self.map@.contains_key(k));
                }
            }
        }
    }

    /// What the policy sees of the store.
    pub open spec fn context(&self) -> CompactionContext {
        CompactionContext {
            open_immutable_files: self.files().len() as usize,
            dead_commands: self.dead(),
        }
    }

    /// Whether the policy asks for a compaction now.
    pub fn should_compact(&self) -> (r: bool)
        requires
            self.wf(),
        ensures
            r == self.policy().fires(self.context()),
    {
        let context = CompactionContext {
            open_immutable_files: self.immutable_files,
            dead_commands: self.dead_data_count,
        };
        self.compaction_policy.should_compact(context)
    }

    /// How many immutable files are open.
    pub fn open_immutable_files(&self) -> (r: usize)
        requires
            self.wf(),
        ensures
            r == self.files().len(),
    {
        self.immutable_files
    }

    /// How many records in immutable files are dead.
    pub fn dead_commands(&self) -> (r: usize)
        ensures
            r == self.dead(),
    {
        self.dead_data_count
    }

    /// The index never holds more keys than were ever written.
    pub proof fn lemma_live_keys_bounded(&self)
        requires
            self.wf(),
        ensures
            self.len_spec() <= self.written().len(),
    {
        let ks = self.keys@.map_values(|s: String| s@);
        assert(ks.no_duplicates()) by {
            assert forall|a: int, b: int| 0 <= a < ks.len() && 0 <= b < ks.len() && a != b implies ks[a]
                != ks[b] by {
                if a < b {
                    assert(self.keys@[a]@ != self.keys@[b]@);
                } else {
                    assert(self.keys@[b]@ != self.keys@[a]@);
                }
            }
        }
        ks.unique_seq_to_set();
        assert forall|k: Seq<char>| ks.to_set().contains(k) implies self.written@.contains(k) by {
            let i = choose|i: int| 0 <= i < ks.len() && ks[i] == k;
            assert(self.points_to(self.keys@[i]@, self.slots@[i]));
        }
        vstd::set_lib::lemma_len_subset(ks.to_set(), self.written@);
    }

    /// The length of the active file.
    pub fn active_len(&self) -> (r: u64)
        requires
            self.wf(),
        ensures
            r == self.active().len(),
    {
        self.active_len
    }

    /// The length of the file that a compaction in progress writes.
    pub fn compacted_len(&self) -> (r: u64)
        requires
            self.wf(),
            self.compacting() is Some,
        ensures
            r == self.files()[self.compacting()->Some_0 as int].len(),
    {
        self.compacted_len
    }

    /// Whether a compaction is in progress.
    pub fn is_compacting(&self) -> (r: bool)
        ensures
            r == self.compacting() is Some,
    {
        self.compacting.is_some()
    }

    /// Where the record of the `i`-th live key lives.
    pub fn entry_at(&self, i: usize) -> (r: IndexEntry)
        requires
            self.wf(),
            i < self.len_spec(),
        ensures
            r == self.entry_spec(i as int).1,
    {
        self.slots[i]
    }

    /// The number of live keys.
    pub fn len(&self) -> (r: usize)
        requires
            self.wf(),
        ensures
            r == self.len_spec(),
    {
        self.keys.len()
    }
}

} // verus!
