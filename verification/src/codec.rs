//! One record of the log: what it says, the bytes that say it, and how those
//! bytes are read back. A record carries no length of its own; each of its
//! parts tells where it ends.

use vstd::prelude::*;
use crate::error::PerdsError;
use crate::wire::{
    fits, lemma_read_text_extend, lemma_read_text_of_text, lemma_read_text_taken,
    lemma_read_varint_extend, lemma_read_varint_of_varint, lemma_read_varint_taken, read_text,
    read_varint, tag_from_bytes, tag_to_bytes, text_bytes, text_from_bytes, text_to_bytes, varint,
};

verus! {

/// The number that opens an insert record.
pub const INSERT_TAG: u32 = 0;

/// The number that opens a delete record.
pub const DELETE_TAG: u32 = 1;

/// One change to the container, as the log records it.
#[derive(Debug, PartialEq, Eq)]
pub enum Record {
    /// Set `key` to `value`, whatever it held.
    Insert { key: String, value: String },
    /// Take `key` out, if it is there.
    Delete { key: String },
}

/// A record as contracts speak of it.
pub enum RecordView {
    Insert { key: Seq<char>, value: Seq<char> },
    Delete { key: Seq<char> },
}

impl View for Record {
    type V = RecordView;

    open spec fn view(&self) -> RecordView {
        match *self {
            Record::Insert { key, value } => RecordView::Insert { key: key@, value: value@ },
            Record::Delete { key } => RecordView::Delete { key: key@ },
        }
    }
}

impl RecordView {
    /// Whether the texts of the record are short enough to be written. Every
    /// record that exists in memory is.
    pub open spec fn fits(self) -> bool {
        match self {
            RecordView::Insert { key, value } => fits(key) && fits(value),
            RecordView::Delete { key } => fits(key),
        }
    }
}

/// A record on the wire: its tag, its key, and for an insert its value.
pub open spec fn record_bytes(record: RecordView) -> Seq<u8> {
    match record {
        RecordView::Insert { key, value } => varint(INSERT_TAG as nat) + text_bytes(key)
            + text_bytes(value),
        RecordView::Delete { key } => varint(DELETE_TAG as nat) + text_bytes(key),
    }
}

/// Reading one record from the front of `bytes`: the record and the number of
/// bytes it took.
///
/// The parts are read in order and the first failure is the record's. A tag
/// that names neither kind is `SerdeDeCustom`.
pub open spec fn read_record(bytes: Seq<u8>) -> Result<(RecordView, nat), postcard::Error> {
    match read_varint(bytes, u32::MAX as nat) {
        Err(e) => Err(e),
        Ok((tag, n0)) => if tag != INSERT_TAG && tag != DELETE_TAG {
            Err(postcard::Error::SerdeDeCustom)
        } else {
            match read_text(bytes.skip(n0 as int)) {
                Err(e) => Err(e),
                Ok((key, n1)) => if tag == DELETE_TAG {
                    Ok((RecordView::Delete { key }, n0 + n1))
                } else {
                    match read_text(bytes.skip((n0 + n1) as int)) {
                        Err(e) => Err(e),
                        Ok((value, n2)) => Ok((RecordView::Insert { key, value }, n0 + n1 + n2)),
                    }
                },
            }
        },
    }
}

/// A record that is read takes at least one byte and no more than there are.
pub proof fn lemma_read_record_taken(bytes: Seq<u8>)
    requires
        read_record(bytes) is Ok,
    ensures
        1 <= read_record(bytes)->Ok_0.1 <= bytes.len(),
{
    lemma_read_varint_taken(bytes, u32::MAX as nat);
    let n0 = read_varint(bytes, u32::MAX as nat)->Ok_0.1;
    lemma_read_text_taken(bytes.skip(n0 as int));
    let n1 = read_text(bytes.skip(n0 as int))->Ok_0.1;
    if read_record(bytes)->Ok_0.0 is Insert {
        lemma_read_text_taken(bytes.skip((n0 + n1) as int));
    }
}

/// What was read as a record is read the same whatever is put behind it.
pub proof fn lemma_read_record_extend(bytes: Seq<u8>, more: Seq<u8>)
    requires
        read_record(bytes) is Ok,
    ensures
        read_record(bytes + more) == read_record(bytes),
{
    let max = u32::MAX as nat;
    lemma_read_varint_taken(bytes, max);
    lemma_read_varint_extend(bytes, max, more);
    let n0 = read_varint(bytes, max)->Ok_0.1;
    let after_tag = bytes.skip(n0 as int);
    assert((bytes + more).skip(n0 as int) =~= after_tag + more);
    lemma_read_text_taken(after_tag);
    lemma_read_text_extend(after_tag, more);
    let n1 = read_text(after_tag)->Ok_0.1;
    if read_record(bytes)->Ok_0.0 is Insert {
        let after_key = bytes.skip((n0 + n1) as int);
        assert((bytes + more).skip((n0 + n1) as int) =~= after_key + more);
        lemma_read_text_extend(after_key, more);
    }
}

/// Reading a written record gives it back and stops where its bytes end.
pub proof fn lemma_read_record_of_record(record: RecordView, rest: Seq<u8>)
    requires
        record.fits(),
    ensures
        read_record(record_bytes(record) + rest) == Ok::<(RecordView, nat), postcard::Error>(
            (record, record_bytes(record).len()),
        ),
{
    let bytes = record_bytes(record) + rest;
    match record {
        RecordView::Insert { key, value } => {
            let tag = varint(INSERT_TAG as nat);
            assert(bytes =~= tag + (text_bytes(key) + text_bytes(value) + rest));
            lemma_read_varint_of_varint(
                INSERT_TAG as nat,
                u32::MAX as nat,
                text_bytes(key) + text_bytes(value) + rest,
            );
            assert(bytes.skip(tag.len() as int) =~= text_bytes(key) + (text_bytes(value) + rest));
            lemma_read_text_of_text(key, text_bytes(value) + rest);
            assert(bytes.skip((tag.len() + text_bytes(key).len()) as int) =~= text_bytes(value)
                + rest);
            lemma_read_text_of_text(value, rest);
        },
        RecordView::Delete { key } => {
            let tag = varint(DELETE_TAG as nat);
            assert(bytes =~= tag + (text_bytes(key) + rest));
            lemma_read_varint_of_varint(DELETE_TAG as nat, u32::MAX as nat, text_bytes(key) + rest);
            assert(bytes.skip(tag.len() as int) =~= text_bytes(key) + rest);
            lemma_read_text_of_text(key, rest);
        },
    }
}

/// The bytes of the record that sets `key` to `value`. Writing texts cannot
/// fail.
pub fn encode_insert(key: &str, value: &str) -> (r: Result<Vec<u8>, PerdsError>)
    ensures
        r is Ok,
        r->Ok_0@ == record_bytes(RecordView::Insert { key: key@, value: value@ }),
{
    let mut out = match tag_to_bytes(INSERT_TAG) {
        Ok(bytes) => bytes,
        Err(e) => {
            return Err(PerdsError::SerError(e));
        },
    };
    let mut key_bytes = match text_to_bytes(key) {
        Ok(bytes) => bytes,
        Err(e) => {
            return Err(PerdsError::SerError(e));
        },
    };
    let mut value_bytes = match text_to_bytes(value) {
        Ok(bytes) => bytes,
        Err(e) => {
            return Err(PerdsError::SerError(e));
        },
    };
    out.append(&mut key_bytes);
    out.append(&mut value_bytes);
    Ok(out)
}

/// The bytes of the record that takes `key` out. Writing texts cannot fail.
pub fn encode_delete(key: &str) -> (r: Result<Vec<u8>, PerdsError>)
    ensures
        r is Ok,
        r->Ok_0@ == record_bytes(RecordView::Delete { key: key@ }),
{
    let mut out = match tag_to_bytes(DELETE_TAG) {
        Ok(bytes) => bytes,
        Err(e) => {
            return Err(PerdsError::SerError(e));
        },
    };
    let mut key_bytes = match text_to_bytes(key) {
        Ok(bytes) => bytes,
        Err(e) => {
            return Err(PerdsError::SerError(e));
        },
    };
    out.append(&mut key_bytes);
    Ok(out)
}

/// The bytes of a record: its tag, then its key, then for an insert its value.
pub fn encode(record: &Record) -> (r: Result<Vec<u8>, PerdsError>)
    ensures
        r is Ok,
        r->Ok_0@ == record_bytes(record@),
{
    match record {
        Record::Insert { key, value } => encode_insert(key.as_str(), value.as_str()),
        Record::Delete { key } => encode_delete(key.as_str()),
    }
}

/// Reads one record from the front of `buf` and hands back what follows it.
/// Fails exactly when `read_record` does, with its error as a `SerError`.
pub fn decode<'a>(buf: &'a [u8]) -> (r: Result<(Record, &'a [u8]), PerdsError>)
    ensures
        match read_record(buf@) {
            Ok((record, taken)) => r is Ok && r->Ok_0.0@ == record && r->Ok_0.1@ == buf@.skip(
                taken as int,
            ),
            Err(e) => r == Err::<(Record, &[u8]), PerdsError>(PerdsError::SerError(e)),
        },
{
    let (tag, after_tag) = match tag_from_bytes(buf) {
        Ok(read) => read,
        Err(e) => {
            return Err(PerdsError::SerError(e));
        },
    };
    if tag != INSERT_TAG && tag != DELETE_TAG {
        return Err(PerdsError::SerError(postcard::Error::SerdeDeCustom));
    }
    let (key, after_key) = match text_from_bytes(after_tag) {
        Ok(read) => read,
        Err(e) => {
            return Err(PerdsError::SerError(e));
        },
    };
    proof {
        let n0 = read_varint(buf@, u32::MAX as nat)->Ok_0.1;
        let n1 = read_text(buf@.skip(n0 as int))->Ok_0.1;
        lemma_read_varint_taken(buf@, u32::MAX as nat);
        lemma_read_text_taken(buf@.skip(n0 as int));
        assert(buf@.skip(n0 as int).skip(n1 as int) =~= buf@.skip((n0 + n1) as int));
    }
    if tag == DELETE_TAG {
        return Ok((Record::Delete { key }, after_key));
    }
    let (value, rest) = match text_from_bytes(after_key) {
        Ok(read) => read,
        Err(e) => {
            return Err(PerdsError::SerError(e));
        },
    };
    proof {
        let n0 = read_varint(buf@, u32::MAX as nat)->Ok_0.1;
        let n1 = read_text(buf@.skip(n0 as int))->Ok_0.1;
        let n2 = read_text(buf@.skip((n0 + n1) as int))->Ok_0.1;
        lemma_read_text_taken(buf@.skip((n0 + n1) as int));
        assert(buf@.skip((n0 + n1) as int).skip(n2 as int) =~= buf@.skip((n0 + n1 + n2) as int));
    }
    Ok((Record::Insert { key, value }, rest))
}

} // verus!
