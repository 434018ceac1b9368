//! What the log means: a sequence of records stands for the key-value map that applying them
//! in order builds, and reading a log back builds that same map.

use vstd::prelude::*;

use crate::cmd::{encode_record, Record};
use crate::error::Error;
use crate::keydir::{apply_record, replay};
use crate::reader::{decode_frame, lemma_round_trip, whole_records_len};

verus! {

/// The map after applying `ops` in order, from `m`.
pub open spec fn apply_all(m: Map<Seq<char>, Seq<char>>, ops: Seq<Record>) -> Map<
    Seq<char>,
    Seq<char>,
>
    decreases ops.len(),
{
    if ops.len() == 0 {
        m
    } else {
        apply_all(apply_record(m, ops[0]), ops.drop_first())
    }
}

/// The value that the last write of `k` in `ops` left, if it was a `Put`.
pub open spec fn latest(ops: Seq<Record>, k: Seq<char>) -> Option<Seq<char>>
    decreases ops.len(),
{
    if ops.len() == 0 {
        None
    } else {
        match ops.last() {
            Record::Put(k2, v) => if k2 == k {
                Some(v)
            } else {
                latest(ops.drop_last(), k)
            },
            Record::Rm(k2) => if k2 == k {
                None
            } else {
                latest(ops.drop_last(), k)
            },
            Record::Get(_) => latest(ops.drop_last(), k),
        }
    }
}

/// The bytes of `ops` written one after the other.
pub open spec fn encode_all(ops: Seq<Record>) -> Seq<u8>
    decreases ops.len(),
{
    if ops.len() == 0 {
        Seq::empty()
    } else {
        encode_record(ops[0]) + encode_all(ops.drop_first())
    }
}

/// Replays log files one after the other, from `m`.
pub open spec fn replay_files(m: Map<Seq<char>, Seq<char>>, files: Seq<Seq<u8>>) -> Map<
    Seq<char>,
    Seq<char>,
>
    decreases files.len(),
{
    if files.len() == 0 {
        m
    } else {
        replay_files(replay(m, files[0]), files.drop_first())
    }
}

/// The records of `chunks` one after the other.
pub open spec fn flatten(chunks: Seq<Seq<Record>>) -> Seq<Record>
    decreases chunks.len(),
{
    if chunks.len() == 0 {
        Seq::empty()
    } else {
        chunks[0] + flatten(chunks.drop_first())
    }
}

/// Applying `ops` is applying all but the last, then the last.
proof fn lemma_apply_all_last(m: Map<Seq<char>, Seq<char>>, ops: Seq<Record>)
    requires
        ops.len() > 0,
    ensures
        apply_all(m, ops) == apply_record(apply_all(m, ops.drop_last()), ops.last()),
    decreases ops.len(),
{
    reveal_with_fuel(apply_all, 2);
    if ops.len() > 1 {
        lemma_apply_all_last(apply_record(m, ops[0]), ops.drop_first());
        assert(ops.drop_first().drop_last() =~= ops.drop_last().drop_first());
        assert(ops.drop_last()[0] == ops[0]);
        assert(ops.drop_first().last() == ops.last());
    } else {
        assert(ops.drop_first().len() == 0);
        assert(ops.drop_last().len() == 0);
        assert(ops.last() == ops[0]);
    }
}

/// Applying `a + b` is applying `a`, then `b`.
proof fn lemma_apply_all_concat(m: Map<Seq<char>, Seq<char>>, a: Seq<Record>, b: Seq<Record>)
    ensures
        apply_all(m, a + b) == apply_all(apply_all(m, a), b),
    decreases a.len(),
{
    if a.len() > 0 {
        assert((a + b).drop_first() =~= a.drop_first() + b);
        lemma_apply_all_concat(apply_record(m, a[0]), a.drop_first(), b);
    } else {
        assert(a + b =~= b);
    }
}

/// After any sequence of writes into an empty store, a key has the value of its last `Put`,
/// unless an `Rm` came after it; a key never written, or removed last, has none.
pub proof fn law_last_write_wins(ops: Seq<Record>, k: Seq<char>)
    ensures
        apply_all(Map::empty(), ops).contains_key(k) <==> latest(ops, k) is Some,
        latest(ops, k) matches Some(v) ==> apply_all(Map::empty(), ops)[k] == v,
    decreases ops.len(),
{
    if ops.len() > 0 {
        lemma_apply_all_last(Map::empty(), ops);
        law_last_write_wins(ops.drop_last(), k);
    }
}

/// Replaying the bytes of whole records, and then more, is applying the records and then
/// replaying the rest.
pub proof fn lemma_replay_encoded(m: Map<Seq<char>, Seq<char>>, ops: Seq<Record>, rest: Seq<u8>)
    requires
        forall|i: int| 0 <= i < ops.len() ==> (#[trigger] ops[i]).encodable(),
    ensures
        replay(m, encode_all(ops) + rest) == replay(apply_all(m, ops), rest),
    decreases ops.len(),
{
    if ops.len() == 0 {
        assert(encode_all(ops) + rest =~= rest);
    } else {
        let r = ops[0];
        assert(r.encodable());
        let tail = encode_all(ops.drop_first()) + rest;
        let src = encode_all(ops) + rest;
        assert(src =~= encode_record(r) + tail);
        lemma_round_trip(r, tail);
        let n = encode_record(r).len();
        assert(src.subrange(n as int, src.len() as int) =~= tail);
        assert forall|i: int| 0 <= i < ops.drop_first().len() implies (
        #[trigger] ops.drop_first()[i]).encodable() by {
            assert(ops.drop_first()[i] == ops[i + 1]);
        }
        lemma_replay_encoded(apply_record(m, r), ops.drop_first(), rest);
    }
}

/// Log files that hold, one after the other and split in any way, the records of a sequence of
/// writes replay, file by file, to the map that those writes build.
pub proof fn law_log_replays_writes(chunks: Seq<Seq<Record>>)
    requires
        forall|c: int, i: int|
            0 <= c < chunks.len() && 0 <= i < chunks[c].len() ==> (#[trigger] chunks[c][i]).encodable(),
    ensures
        replay_files(Map::empty(), chunks.map_values(|c: Seq<Record>| encode_all(c))) == apply_all(
            Map::empty(),
            flatten(chunks),
        ),
{
    lemma_replay_files(Map::empty(), chunks);
}

proof fn lemma_replay_files(m: Map<Seq<char>, Seq<char>>, chunks: Seq<Seq<Record>>)
    requires
        forall|c: int, i: int|
            0 <= c < chunks.len() && 0 <= i < chunks[c].len() ==> (#[trigger] chunks[c][i]).encodable(),
    ensures
        replay_files(m, chunks.map_values(|c: Seq<Record>| encode_all(c))) == apply_all(
            m,
            flatten(chunks),
        ),
    decreases chunks.len(),
{
    let files = chunks.map_values(|c: Seq<Record>| encode_all(c));
    if chunks.len() > 0 {
        let c0 = chunks[0];
        assert forall|i: int| 0 <= i < c0.len() implies (#[trigger] c0[i]).encodable() by {
            assert(chunks[0][i] == c0[i]);
        }
        lemma_replay_encoded(m, c0, Seq::empty());
        assert(encode_all(c0) + Seq::<u8>::empty() =~= encode_all(c0));
        replay_empty(apply_all(m, c0));
        let rest = chunks.drop_first();
        assert forall|c: int, i: int|
            0 <= c < rest.len() && 0 <= i < rest[c].len() implies (#[trigger] rest[c][i]).encodable() by {
            assert(rest[c] == chunks[c + 1]);
        }
        lemma_replay_files(apply_all(m, c0), rest);
        assert(files.drop_first() =~= rest.map_values(|c: Seq<Record>| encode_all(c)));
        lemma_apply_all_concat(m, c0, flatten(rest));
    }
}

/// Replaying no bytes changes nothing.
pub proof fn replay_empty(m: Map<Seq<char>, Seq<char>>)
    ensures
        replay(m, Seq::empty()) == m,
{
    assert(decode_frame(Seq::<u8>::empty()) == Ok::<Option<(Record, nat)>, Error>(None));
}

/// The keys that the `Put` and `Rm` records of `b` write.
pub open spec fn touched(b: Seq<u8>) -> Set<Seq<char>>
    decreases b.len(),
{
    match decode_frame(b) {
        Ok(Some((r, n))) => if 0 < n <= b.len() {
            let rest = touched(b.subrange(n as int, b.len() as int));
            match r {
                Record::Put(k, _) => rest.insert(k),
                Record::Rm(k) => rest.insert(k),
                Record::Get(_) => rest,
            }
        } else {
            Set::empty()
        },
        _ => Set::empty(),
    }
}

/// The keys that record `r` writes.
pub open spec fn written_keys(r: Record) -> Set<Seq<char>> {
    match r {
        Record::Put(k, _) => set![k],
        Record::Rm(k) => set![k],
        Record::Get(_) => Set::empty(),
    }
}

/// `b` is made of whole records, to its very end.
pub open spec fn whole(b: Seq<u8>) -> bool {
    whole_records_len(b) == b.len()
}

/// `b` holds a `Get` among its leading whole records.
pub open spec fn has_get(b: Seq<u8>) -> bool
    decreases b.len(),
{
    match decode_frame(b) {
        Ok(Some((r, n))) => if 0 < n <= b.len() {
            r is Get || has_get(b.subrange(n as int, b.len() as int))
        } else {
            false
        },
        _ => false,
    }
}

/// `b` can be replayed into an index: whole records to its end, none of them a `Get`.
pub open spec fn loadable(b: Seq<u8>) -> bool {
    whole(b) && !has_get(b)
}

/// Two maps agree on every key outside `t`.
pub open spec fn agree_outside(
    x: Map<Seq<char>, Seq<char>>,
    y: Map<Seq<char>, Seq<char>>,
    t: Set<Seq<char>>,
) -> bool {
    forall|k: Seq<char>|
        !t.contains(k) ==> (#[trigger] x.contains_key(k) == y.contains_key(k) && (x.contains_key(k)
            ==> x[k] == y[k]))
}

/// Bytes after a record do not change how it decodes.
pub proof fn lemma_decode_prefix(x: Seq<u8>, y: Seq<u8>)
    requires
        decode_frame(x) matches Ok(Some(_)),
    ensures
        decode_frame(x + y) == decode_frame(x),
{
    let s = x + y;
    assert(s.subrange(0, 4) =~= x.subrange(0, 4));
    assert(s.subrange(4, 12) =~= x.subrange(4, 12));
    let f = crate::reader::frame_len(x);
    assert(s.subrange(12, f) =~= x.subrange(12, f));
}

/// Appending one record to whole records: replay applies it last, the bytes stay whole, and it
/// adds its key to those written.
pub proof fn lemma_replay_append(m: Map<Seq<char>, Seq<char>>, x: Seq<u8>, r: Record)
    requires
        whole(x),
        r.encodable(),
    ensures
        replay(m, x + encode_record(r)) == apply_record(replay(m, x), r),
        whole(x + encode_record(r)),
        touched(x + encode_record(r)) == touched(x) + written_keys(r),
    decreases x.len(),
{
    let e = encode_record(r);
    if x.len() == 0 {
        assert(x + e =~= e);
        lemma_round_trip(r, Seq::empty());
        assert(e + Seq::<u8>::empty() =~= e);
        assert(e.subrange(e.len() as int, e.len() as int) =~= Seq::<u8>::empty());
        replay_empty(apply_record(m, r));
        replay_empty(m);
        assert(decode_frame(Seq::<u8>::empty()) == Ok::<Option<(Record, nat)>, Error>(None));
        assert(decode_frame(x) == Ok::<Option<(Record, nat)>, Error>(None));
        let n = e.len();
        assert(decode_frame(e) == Ok::<Option<(Record, nat)>, Error>(Some((r, n))));
        assert(whole_records_len(Seq::<u8>::empty()) == 0);
        assert(touched(Seq::<u8>::empty()) == Set::<Seq<char>>::empty());
        assert(whole_records_len(e) == n + whole_records_len(e.subrange(n as int, n as int)));
        assert(touched(x) == Set::<Seq<char>>::empty());
        assert(touched(e) =~= touched(x) + written_keys(r));
    } else {
        let (r0, n0) = match decode_frame(x) {
            Ok(Some(p)) => p,
            _ => (r, 0),
        };
        assert(decode_frame(x) matches Ok(Some(_)));
        lemma_decode_prefix(x, e);
        let xr = x.subrange(n0 as int, x.len() as int);
        assert((x + e).subrange(n0 as int, (x + e).len() as int) =~= xr + e);
        lemma_replay_append(apply_record(m, r0), xr, r);
        assert(touched(x + e) =~= touched(x) + written_keys(r));
    }
}

/// Replay from two maps that agree outside the keys that `b` writes ends in the same map.
pub proof fn lemma_replay_agree(
    x: Map<Seq<char>, Seq<char>>,
    y: Map<Seq<char>, Seq<char>>,
    b: Seq<u8>,
)
    requires
        agree_outside(x, y, touched(b)),
    ensures
        replay(x, b) == replay(y, b),
    decreases b.len(),
{
    match decode_frame(b) {
        Ok(Some((r, n))) => if 0 < n <= b.len() {
            let rest = b.subrange(n as int, b.len() as int);
            let ax = apply_record(x, r);
            let ay = apply_record(y, r);
            assert(agree_outside(ax, ay, touched(rest))) by {
                assert forall|k: Seq<char>| !touched(rest).contains(k) implies (
                #[trigger] ax.contains_key(k) == ay.contains_key(k) && (ax.contains_key(k)
                    ==> ax[k] == ay[k])) by {
                    if !touched(b).contains(k) {
                        assert(x.contains_key(k) == y.contains_key(k));
                    }
                }
            }
            lemma_replay_agree(ax, ay, rest);
        } else {
            assert(x =~= y);
        },
        _ => {
            assert(x =~= y);
        },
    }
}

/// A key that `b` does not write keeps through replay what it had.
pub proof fn lemma_replay_untouched(m: Map<Seq<char>, Seq<char>>, b: Seq<u8>, k: Seq<char>)
    requires
        !touched(b).contains(k),
    ensures
        replay(m, b).contains_key(k) == m.contains_key(k),
        m.contains_key(k) ==> replay(m, b)[k] == m[k],
    decreases b.len(),
{
    match decode_frame(b) {
        Ok(Some((r, n))) => if 0 < n <= b.len() {
            lemma_replay_untouched(apply_record(m, r), b.subrange(n as int, b.len() as int), k);
        },
        _ => {},
    }
}

/// Setting a key that `b` does not write commutes with replaying `b`.
pub proof fn lemma_replay_insert_untouched(
    m: Map<Seq<char>, Seq<char>>,
    b: Seq<u8>,
    k: Seq<char>,
    v: Seq<char>,
)
    requires
        !touched(b).contains(k),
    ensures
        replay(m.insert(k, v), b) == replay(m, b).insert(k, v),
    decreases b.len(),
{
    match decode_frame(b) {
        Ok(Some((r, n))) => if 0 < n <= b.len() {
            let rest = b.subrange(n as int, b.len() as int);
            assert(apply_record(m.insert(k, v), r) =~= apply_record(m, r).insert(k, v));
            lemma_replay_insert_untouched(apply_record(m, r), rest, k, v);
        } else {
        },
        _ => {},
    }
}

/// Replaying one more file is replaying it after the others.
pub proof fn lemma_replay_files_push(
    m: Map<Seq<char>, Seq<char>>,
    files: Seq<Seq<u8>>,
    f: Seq<u8>,
)
    ensures
        replay_files(m, files.push(f)) == replay(replay_files(m, files), f),
    decreases files.len(),
{
    reveal_with_fuel(replay_files, 2);
    if files.len() == 0 {
        assert(files.push(f).drop_first() =~= Seq::<Seq<u8>>::empty());
        assert(files.push(f)[0] == f);
    } else {
        assert(files.push(f).drop_first() =~= files.drop_first().push(f));
        assert(files.push(f)[0] == files[0]);
        lemma_replay_files_push(replay(m, files[0]), files.drop_first(), f);
    }
}
} // verus!
