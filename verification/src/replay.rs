//! Rebuilding the container from the log: records are read from the front and
//! applied in order to a container that starts empty, until no byte is left.

use vstd::prelude::*;
use vstd::hash_map::StringHashMap;
use crate::codec::{
    decode, lemma_read_record_extend, lemma_read_record_of_record, lemma_read_record_taken,
    read_record, record_bytes, Record, RecordView,
};
use crate::error::PerdsError;
use crate::wire::fits;

verus! {

/// The container as contracts speak of it.
pub type Contents = Map<Seq<char>, Seq<char>>;

/// The texts held by a map whose values are strings.
pub open spec fn texts(map: Map<Seq<char>, String>) -> Contents {
    map.map_values(|value: String| value@)
}

/// What one record does to the container. Deleting a key that is absent
/// changes nothing.
pub open spec fn apply(contents: Contents, record: RecordView) -> Contents {
    match record {
        RecordView::Insert { key, value } => contents.insert(key, value),
        RecordView::Delete { key } => contents.remove(key),
    }
}

/// What a sequence of records does to the container, first record first.
pub open spec fn apply_all(contents: Contents, records: Seq<RecordView>) -> Contents
    decreases records.len(),
{
    if records.len() == 0 {
        contents
    } else {
        apply(apply_all(contents, records.drop_last()), records.last())
    }
}

/// The log that holds the given records in order, and nothing else.
pub open spec fn log_of(records: Seq<RecordView>) -> Seq<u8>
    decreases records.len(),
{
    if records.len() == 0 {
        Seq::empty()
    } else {
        log_of(records.drop_last()) + record_bytes(records.last())
    }
}

/// Replaying `bytes` onto `contents`. The first record that cannot be read
/// fails the whole replay: bytes left over that are no complete record are an
/// error, not a tail to be skipped.
pub open spec fn replay_onto(contents: Contents, bytes: Seq<u8>) -> Result<
    Contents,
    postcard::Error,
>
    decreases bytes.len(),
    via replay_onto_decreases
{
    if bytes.len() == 0 {
        Ok(contents)
    } else {
        match read_record(bytes) {
            Err(e) => Err(e),
            Ok((record, taken)) => replay_onto(apply(contents, record), bytes.skip(taken as int)),
        }
    }
}

#[via_fn]
proof fn replay_onto_decreases(contents: Contents, bytes: Seq<u8>) {
    if read_record(bytes) is Ok {
        lemma_read_record_taken(bytes);
    }
}

/// The container that a log stands for.
pub open spec fn replayed(bytes: Seq<u8>) -> Result<Contents, postcard::Error> {
    replay_onto(Map::empty(), bytes)
}

/// Replaying two logs end to end is replaying the second onto what the first
/// gave.
pub proof fn lemma_replay_concat(contents: Contents, first: Seq<u8>, second: Seq<u8>)
    requires
        replay_onto(contents, first) is Ok,
    ensures
        replay_onto(contents, first + second) == replay_onto(
            replay_onto(contents, first)->Ok_0,
            second,
        ),
    decreases first.len(),
{
    if first.len() == 0 {
        assert(first + second =~= second);
    } else {
        lemma_read_record_taken(first);
        lemma_read_record_extend(first, second);
        let (record, taken) = read_record(first)->Ok_0;
        assert((first + second).skip(taken as int) =~= first.skip(taken as int) + second);
        lemma_replay_concat(apply(contents, record), first.skip(taken as int), second);
    }
}

/// Replaying the bytes of one record applies that record.
pub proof fn lemma_replay_record(contents: Contents, record: RecordView)
    requires
        record.fits(),
    ensures
        replay_onto(contents, record_bytes(record)) == Ok::<Contents, postcard::Error>(
            apply(contents, record),
        ),
{
    let bytes = record_bytes(record);
    lemma_read_record_of_record(record, Seq::empty());
    assert(bytes + Seq::<u8>::empty() =~= bytes);
    lemma_read_record_taken(bytes);
    let after = apply(contents, record);
    assert(replay_onto(after, bytes.skip(bytes.len() as int)) == Ok::<Contents, postcard::Error>(
        after,
    ));
}

/// A log that replays still replays with one more record behind it, to the
/// container with that record applied.
pub proof fn lemma_replay_append(log: Seq<u8>, record: RecordView)
    requires
        replayed(log) is Ok,
        record.fits(),
    ensures
        replayed(log + record_bytes(record)) == Ok::<Contents, postcard::Error>(
            apply(replayed(log)->Ok_0, record),
        ),
{
    lemma_replay_concat(Map::empty(), log, record_bytes(record));
    lemma_replay_record(replayed(log)->Ok_0, record);
}

/// Whatever records are written to a log, replaying the log gives the
/// container that applying them one by one to an empty map gives.
pub proof fn lemma_round_trip(records: Seq<RecordView>)
    requires
        forall|i: int| 0 <= i < records.len() ==> (#[trigger] records[i]).fits(),
    ensures
        replayed(log_of(records)) == Ok::<Contents, postcard::Error>(
            apply_all(Map::empty(), records),
        ),
    decreases records.len(),
{
    if records.len() > 0 {
        let before = records.drop_last();
        assert forall|i: int| 0 <= i < before.len() implies (#[trigger] before[i]).fits() by {
            assert(before[i] == records[i]);
        }
        lemma_round_trip(before);
        lemma_replay_append(log_of(before), records.last());
    }
}

/// Of two inserts of one key the later wins: after replay the key holds the
/// second value, though the log holds both records, one after the other.
pub proof fn lemma_last_write_wins(
    log: Seq<u8>,
    key: Seq<char>,
    first: Seq<char>,
    second: Seq<char>,
)
    requires
        replayed(log) is Ok,
        fits(key),
        fits(first),
        fits(second),
    ensures
        ({
            let one = RecordView::Insert { key, value: first };
            let two = RecordView::Insert { key, value: second };
            let all = log + record_bytes(one) + record_bytes(two);
            &&& replayed(all) == Ok::<Contents, postcard::Error>(
                replayed(log)->Ok_0.insert(key, second),
            )
            &&& replayed(all)->Ok_0[key] == second
            &&& read_record(all.skip(log.len() as int)) == Ok::<(RecordView, nat), postcard::Error>(
                (one, record_bytes(one).len()),
            )
            &&& read_record(all.skip((log.len() + record_bytes(one).len()) as int)) == Ok::<
                (RecordView, nat),
                postcard::Error,
            >((two, record_bytes(two).len()))
        }),
{
    let one = RecordView::Insert { key, value: first };
    let two = RecordView::Insert { key, value: second };
    let all = log + record_bytes(one) + record_bytes(two);
    lemma_replay_append(log, one);
    lemma_replay_append(log + record_bytes(one), two);
    assert(replayed(log)->Ok_0.insert(key, first).insert(key, second) =~= replayed(log)->Ok_0.insert(
        key,
        second,
    ));
    assert(all.skip(log.len() as int) =~= record_bytes(one) + record_bytes(two));
    lemma_read_record_of_record(one, record_bytes(two));
    assert(all.skip((log.len() + record_bytes(one).len()) as int) =~= record_bytes(two)
        + Seq::<u8>::empty());
    lemma_read_record_of_record(two, Seq::empty());
}

/// Deleting a key that the container does not hold is no error: the record
/// goes to the log like any other, and the container replays as it was, still
/// without the key.
pub proof fn lemma_delete_absent(log: Seq<u8>, key: Seq<char>)
    requires
        replayed(log) is Ok,
        !replayed(log)->Ok_0.contains_key(key),
        fits(key),
    ensures
        replayed(log + record_bytes(RecordView::Delete { key })) == replayed(log),
        !replayed(log + record_bytes(RecordView::Delete { key }))->Ok_0.contains_key(key),
{
    lemma_replay_append(log, RecordView::Delete { key });
    assert(replayed(log)->Ok_0.remove(key) =~= replayed(log)->Ok_0);
}

/// Reads the whole of `buf` as a log and builds the container it stands for.
/// An empty buffer gives an empty container. Fails exactly when `replayed`
/// does, with its error as a `SerError`.
pub fn replay(buf: &[u8]) -> (r: Result<StringHashMap<String>, PerdsError>)
    ensures
        match replayed(buf@) {
            Ok(contents) => r is Ok && texts(r->Ok_0@) == contents,
            Err(e) => r == Err::<StringHashMap<String>, PerdsError>(PerdsError::SerError(e)),
        },
{
    let mut map: StringHashMap<String> = StringHashMap::new();
    let mut rest = buf;
    assert(texts(map@) =~= Map::<Seq<char>, Seq<char>>::empty());
    while !rest.is_empty()
        invariant
            replay_onto(texts(map@), rest@) == replayed(buf@),
        decreases rest@.len(),
    {
        let (record, after) = match decode(rest) {
            Ok(read) => read,
            Err(e) => {
                return Err(e);
            },
        };
        proof {
            lemma_read_record_taken(rest@);
        }
        let ghost before = map@;
        match record {
            Record::Insert { key, value } => {
                map.insert(key, value);
            },
            Record::Delete { key } => {
                map.remove(key.as_str());
            },
        }
        assert(texts(map@) =~= apply(texts(before), record@));
        rest = after;
    }
    Ok(map)
}

} // verus!
