//! Facts about the log as a whole: what a replay makes of records appended
//! to it, and where those records lie.

use crate::codec::{
    decode_error, decoded_key, decoded_value, frame_bytes, lemma_frame_header, lemma_round_trip,
    stored_frame_len, RecordError, HEADER_LEN,
};
use crate::store::{record_at, replay, replay_log};
use vstd::bytes::lemma_auto_spec_u32_to_from_le_bytes;
use vstd::prelude::*;

verus! {

/// A record that decodes from `d` decodes the same from `d` with more bytes
/// after it.
proof fn lemma_decode_extended(d: Seq<u8>, e: Seq<u8>)
    requires
        decode_error(d) is None,
    ensures
        decode_error(d + e) is None,
        stored_frame_len(d + e) == stored_frame_len(d),
        decoded_key(d + e) == decoded_key(d),
        (d + e).skip(stored_frame_len(d) as int) == d.skip(stored_frame_len(d) as int) + e,
{
    let de = d + e;
    assert(de.subrange(0, 4) =~= d.subrange(0, 4));
    assert(de.subrange(4, 8) =~= d.subrange(4, 8));
    assert(de.subrange(8, 12) =~= d.subrange(8, 12));
    let n = stored_frame_len(d) as int;
    assert(de.subrange(HEADER_LEN as int, n) =~= d.subrange(HEADER_LEN as int, n));
    assert(decoded_key(de) =~= decoded_key(d));
    assert(de.skip(n) =~= d.skip(n) + e);
}

/// A replay that reaches the end of `a` goes on into `b` from where it
/// stopped.
proof fn lemma_replay_concat(
    a: Seq<u8>,
    b: Seq<u8>,
    base: nat,
    count: nat,
    index: Map<Seq<u8>, nat>,
)
    requires
        replay(a, base, count, index).1 is None,
    ensures
        replay(a, base, count, index).2 == base + a.len(),
        ({
            let (m, _, at, c) = replay(a, base, count, index);
            replay(a + b, base, count, index) == replay(b, at, c, m)
        }),
    decreases a.len(),
{
    if a.len() == 0 {
        assert(a + b =~= b);
    } else {
        let n = stored_frame_len(a);
        lemma_decode_extended(a, b);
        lemma_replay_concat(a.skip(n as int), b, base + n, count + 1, index.insert(decoded_key(a), base));
    }
}

/// The replay of a single record and nothing after it.
proof fn lemma_replay_one(key: Seq<u8>, value: Seq<u8>, base: nat, count: nat, index: Map<Seq<u8>, nat>)
    requires
        key.len() <= u32::MAX,
        value.len() <= u32::MAX,
    ensures
        replay(frame_bytes(key, value), base, count, index) == (
            index.insert(key, base),
            None::<RecordError>,
            base + frame_bytes(key, value).len(),
            count + 1,
        ),
{
    let f = frame_bytes(key, value);
    lemma_round_trip(key, value, Seq::empty());
    assert(f + Seq::<u8>::empty() =~= f);
    assert(f.skip(f.len() as int) =~= Seq::<u8>::empty());
    assert(replay(Seq::<u8>::empty(), base + f.len(), count + 1, index.insert(key, base)).1 is None);
}

/// Where the index is the replay of the whole log, an insert that makes the
/// end of the log the key's position, followed by the append of its record,
/// leaves the index equal to the replay of the longer log: a store that is
/// reopened and loaded again has the same index as before.
pub proof fn lemma_replay_after_append(
    log: Seq<u8>,
    index: Map<Seq<u8>, nat>,
    key: Seq<u8>,
    value: Seq<u8>,
)
    requires
        replay_log(log, index).1 is None,
        key.len() <= u32::MAX,
        value.len() <= u32::MAX,
    ensures
        replay_log(log + frame_bytes(key, value), index).0 == replay_log(log, index).0.insert(
            key,
            log.len(),
        ),
        replay_log(log + frame_bytes(key, value), index).1 is None,
{
    let (m, _, at, c) = replay_log(log, index);
    lemma_replay_concat(log, frame_bytes(key, value), 0, 0, index);
    lemma_replay_one(key, value, at, c, m);
}

/// After two records for one key, the index holds that key once, at the
/// second record, whose value is the second value.
pub proof fn lemma_last_writer_wins(
    index: Map<Seq<u8>, nat>,
    log: Seq<u8>,
    key: Seq<u8>,
    first: Seq<u8>,
    second: Seq<u8>,
)
    requires
        key.len() <= u32::MAX,
        first.len() <= u32::MAX,
        second.len() <= u32::MAX,
    ensures
        ({
            let log1 = log + frame_bytes(key, first);
            let log2 = log1 + frame_bytes(key, second);
            let after = index.insert(key, log.len()).insert(key, log1.len());
            &&& after.dom() == index.dom().insert(key)
            &&& after[key] == log1.len()
            &&& decode_error(record_at(log2, after[key])) is None
            &&& decoded_value(record_at(log2, after[key])) == second
        }),
{
    let log1 = log + frame_bytes(key, first);
    let log2 = log1 + frame_bytes(key, second);
    let after = index.insert(key, log.len()).insert(key, log1.len());
    assert(after.dom() =~= index.dom().insert(key));
    assert(record_at(log2, log1.len()) =~= frame_bytes(key, second) + Seq::<u8>::empty());
    lemma_round_trip(key, second, Seq::empty());
}

/// After a delete, the key is still in the index, and its record holds the
/// empty value.
pub proof fn lemma_delete_leaves_empty_value(
    index: Map<Seq<u8>, nat>,
    log: Seq<u8>,
    key: Seq<u8>,
)
    requires
        key.len() <= u32::MAX,
    ensures
        ({
            let log1 = log + frame_bytes(key, Seq::empty());
            let after = index.insert(key, log.len());
            &&& after.contains_key(key)
            &&& decode_error(record_at(log1, after[key])) is None
            &&& decoded_value(record_at(log1, after[key])) == Seq::<u8>::empty()
        }),
{
    let log1 = log + frame_bytes(key, Seq::empty());
    assert(record_at(log1, log.len()) =~= frame_bytes(key, Seq::empty()) + Seq::<u8>::empty());
    lemma_round_trip(key, Seq::empty(), Seq::empty());
}

/// A log whose last record was cut short replays to `Truncated` at the
/// start of that record, with the index of every record before it.
pub proof fn lemma_truncated_tail(
    log: Seq<u8>,
    index: Map<Seq<u8>, nat>,
    key: Seq<u8>,
    value: Seq<u8>,
    cut: int,
)
    requires
        replay_log(log, index).1 is None,
        key.len() <= u32::MAX,
        value.len() <= u32::MAX,
        0 < cut < frame_bytes(key, value).len(),
    ensures
        ({
            let (m, _, at, c) = replay_log(log, index);
            replay_log(log + frame_bytes(key, value).take(cut), index) == (
                m,
                Some(RecordError::Truncated),
                log.len(),
                c,
            )
        }),
{
    let f = frame_bytes(key, value);
    let part = f.take(cut);
    let (m, _, at, c) = replay_log(log, index);
    lemma_replay_concat(log, part, 0, 0, index);
    lemma_frame_header(key, value, Seq::empty());
    assert(f + Seq::<u8>::empty() =~= f);
    if cut >= HEADER_LEN {
        assert(part.subrange(0, 4) =~= f.subrange(0, 4));
        assert(part.subrange(4, 8) =~= f.subrange(4, 8));
        assert(part.subrange(8, 12) =~= f.subrange(8, 12));
        assert(stored_frame_len(part) == f.len());
    }
    assert(decode_error(part) == Some(RecordError::Truncated));
}

/// The log after appending the records of `writes`, in order.
pub open spec fn append_all(log: Seq<u8>, writes: Seq<(Seq<u8>, Seq<u8>)>) -> Seq<u8>
    decreases writes.len(),
{
    if writes.len() == 0 {
        log
    } else {
        append_all(log, writes.drop_last()) + frame_bytes(writes.last().0, writes.last().1)
    }
}

/// Each record is at least a header long, so records appended one after the
/// other start at strictly increasing offsets: the offset at which write `i`
/// is appended is the length of the log after the writes before it.
pub proof fn lemma_offsets_increase(log: Seq<u8>, writes: Seq<(Seq<u8>, Seq<u8>)>, i: int, j: int)
    requires
        0 <= i < j <= writes.len(),
    ensures
        append_all(log, writes.take(i)).len() + HEADER_LEN * (j - i) <= append_all(
            log,
            writes.take(j),
        ).len(),
        append_all(log, writes.take(i)).len() < append_all(log, writes.take(j)).len(),
    decreases j - i,
{
    let w = writes.take(j);
    assert(w.drop_last() =~= writes.take(j - 1));
    lemma_auto_spec_u32_to_from_le_bytes();
    assert(frame_bytes(w.last().0, w.last().1).len() >= HEADER_LEN);
    if i < j - 1 {
        lemma_offsets_increase(log, writes, i, j - 1);
    }
}

/// The index after inserting the keys of `writes`, in order, each at the
/// end of the log as it then stands.
pub open spec fn index_after(
    index: Map<Seq<u8>, nat>,
    log: Seq<u8>,
    writes: Seq<(Seq<u8>, Seq<u8>)>,
) -> Map<Seq<u8>, nat>
    decreases writes.len(),
{
    if writes.len() == 0 {
        index
    } else {
        index_after(index, log, writes.drop_last()).insert(
            writes.last().0,
            append_all(log, writes.drop_last()).len(),
        )
    }
}

/// Where the keys are distinct, each one's position is where its record
/// was appended.
proof fn lemma_position_of_write(
    index: Map<Seq<u8>, nat>,
    log: Seq<u8>,
    writes: Seq<(Seq<u8>, Seq<u8>)>,
    i: int,
)
    requires
        forall|a: int, b: int| 0 <= a < b < writes.len() ==> writes[a].0 != writes[b].0,
        0 <= i < writes.len(),
    ensures
        index_after(index, log, writes).contains_key(writes[i].0),
        index_after(index, log, writes)[writes[i].0] == append_all(log, writes.take(i)).len(),
    decreases writes.len(),
{
    let w = writes.drop_last();
    if i == writes.len() - 1 {
        assert(w =~= writes.take(i));
    } else {
        assert(w.take(i) =~= writes.take(i));
        assert(w[i] == writes[i]);
        lemma_position_of_write(index, log, w, i);
    }
}

/// For inserts of distinct keys with nothing between them, the offsets that
/// the index records rise strictly in the order of the inserts.
pub proof fn lemma_recorded_offsets_increase(
    index: Map<Seq<u8>, nat>,
    log: Seq<u8>,
    writes: Seq<(Seq<u8>, Seq<u8>)>,
    i: int,
    j: int,
)
    requires
        forall|a: int, b: int| 0 <= a < b < writes.len() ==> writes[a].0 != writes[b].0,
        0 <= i < j < writes.len(),
    ensures
        index_after(index, log, writes)[writes[i].0] < index_after(index, log, writes)[writes[j].0],
{
    lemma_position_of_write(index, log, writes, i);
    lemma_position_of_write(index, log, writes, j);
    lemma_offsets_increase(log, writes, i, j);
}

/// Replaying a log after any number of inserts and deletes, each appended at
/// the end of the log, rebuilds the index that those calls kept: reopening
/// a store and loading it again gives the index it had before.
pub proof fn lemma_replay_of_appended(
    log: Seq<u8>,
    index: Map<Seq<u8>, nat>,
    writes: Seq<(Seq<u8>, Seq<u8>)>,
)
    requires
        replay_log(log, index).1 is None,
        forall|i: int|
            0 <= i < writes.len() ==> (#[trigger] writes[i]).0.len() <= u32::MAX
                && writes[i].1.len() <= u32::MAX,
    ensures
        replay_log(append_all(log, writes), index).1 is None,
        replay_log(append_all(log, writes), index).0 == index_after(
            replay_log(log, index).0,
            log,
            writes,
        ),
    decreases writes.len(),
{
    if writes.len() > 0 {
        let w = writes.drop_last();
        assert forall|i: int| 0 <= i < w.len() implies (#[trigger] w[i]).0.len() <= u32::MAX
            && w[i].1.len() <= u32::MAX by {
            assert(w[i] == writes[i]);
        }
        lemma_replay_of_appended(log, index, w);
        let last = writes[writes.len() - 1];
        lemma_replay_after_append(append_all(log, w), index, last.0, last.1);
    }
}

} // verus!
