//! The store: an in-memory map of texts whose every change goes to an
//! append-only log first.
//!
//! The store never touches the file. Before a change it says what must be
//! appended and whether that must be forced to storage; whoever owns the file
//! does so and hands back how it went; only then does the change take effect.

use vstd::prelude::*;
use vstd::hash_map::StringHashMap;
use std::path::PathBuf;
use crate::codec::{encode_delete, encode_insert, record_bytes, RecordView};
use crate::error::PerdsError;
use crate::replay::{
    apply, apply_all, lemma_replay_append, log_of, replay, replayed, texts, Contents,
};
use crate::wire::text_fits;

verus! {

/// When appended bytes are forced to stable storage. Fixed when the store is
/// made.
#[derive(Debug, PartialEq, Eq, Clone, Copy)]
pub enum Strategy {
    /// After every change.
    Stream,
    /// Only when a flush is asked for.
    Manual,
}

/// What a change asks of the log file before it may take effect.
pub struct Append {
    /// The bytes to add at the end of the file.
    pub bytes: Vec<u8>,
    /// Whether everything written so far must be forced to storage as well.
    pub flush: bool,
}

/// A map of texts backed by a log of its changes.
pub struct Perds {
    strategy: Strategy,
    inner: StringHashMap<String>,
    path: PathBuf,
    log: Ghost<Seq<u8>>,
    flushed: Ghost<nat>,
}

/// The store as contracts speak of it.
pub struct PerdsView {
    /// When appended bytes are forced to storage.
    pub strategy: Strategy,
    /// What the map holds.
    pub contents: Contents,
    /// Where the log file is.
    pub path: PathBuf,
    /// The bytes of the log file, provided every append the store was told of
    /// reached it whole. After a failed append the file may hold more: part of
    /// a record that the store does not count.
    pub log: Seq<u8>,
    /// How many bytes of the log are known to be on stable storage.
    pub flushed: nat,
}

impl PerdsView {
    /// The log replays to the contents, and under `Stream` nothing is left
    /// unflushed.
    pub open spec fn wf(self) -> bool {
        &&& replayed(self.log) == Ok::<Contents, postcard::Error>(self.contents)
        &&& self.flushed <= self.log.len()
        &&& self.strategy is Stream ==> self.flushed == self.log.len()
    }

    /// The store after a record was appended and applied.
    pub open spec fn committed(self, record: RecordView) -> PerdsView {
        let log = self.log + record_bytes(record);
        PerdsView {
            contents: apply(self.contents, record),
            log,
            flushed: if self.strategy is Stream {
                log.len()
            } else {
                self.flushed
            },
            ..self
        }
    }

    /// The store after everything appended was forced to storage.
    pub open spec fn synced(self) -> PerdsView {
        PerdsView { flushed: self.log.len(), ..self }
    }
}

/// What a key holds, if anything.
pub open spec fn held(contents: Contents, key: Seq<char>) -> Option<Seq<char>> {
    if contents.contains_key(key) {
        Some(contents[key])
    } else {
        None
    }
}

/// The insert records that a seed stands for, entry by entry.
pub open spec fn seed_records(entries: Seq<(String, String)>) -> Seq<RecordView> {
    Seq::new(
        entries.len(),
        |i: int| RecordView::Insert { key: entries[i].0@, value: entries[i].1@ },
    )
}

impl View for Perds {
    type V = PerdsView;

    closed spec fn view(&self) -> PerdsView {
        PerdsView {
            strategy: self.strategy,
            contents: texts(self.inner@),
            path: self.path,
            log: self.log@,
            flushed: self.flushed@,
        }
    }
}

impl Perds {
    /// What a store made from the bytes of a log file is: the container the
    /// bytes replay to, with all of them counted as written and flushed; or
    /// the error of the first record that cannot be read.
    pub open spec fn hydrated(
        strategy: Strategy,
        path: PathBuf,
        bytes: Seq<u8>,
        r: Result<Perds, PerdsError>,
    ) -> bool {
        match replayed(bytes) {
            Ok(contents) => r is Ok && r->Ok_0@ == (PerdsView {
                strategy,
                contents,
                path,
                log: bytes,
                flushed: bytes.len(),
            }),
            Err(e) => r == Err::<Perds, PerdsError>(PerdsError::SerError(e)),
        }
    }

    /// Where the log file is.
    pub fn path(&self) -> (p: &PathBuf)
        ensures
            *p == self@.path,
    {
        &self.path
    }

    /// Makes a store from what was read from an existing log file.
    pub fn from_file(strategy: Strategy, path: PathBuf, contents: &[u8]) -> (r: Result<
        Perds,
        PerdsError,
    >)
        ensures
            Perds::hydrated(strategy, path, contents@, r),
            r is Ok ==> r->Ok_0@.wf(),
    {
        let inner = match replay(contents) {
            Ok(map) => map,
            Err(e) => {
                return Err(e);
            },
        };
        Ok(Perds { strategy, inner, path, log: Ghost(contents@), flushed: Ghost(contents@.len()) })
    }

    /// Makes a store from what was read from an existing log file that was
    /// opened for reading and writing at once.
    pub fn try_from_file(strategy: Strategy, path: PathBuf, contents: &[u8]) -> (r: Result<
        Perds,
        PerdsError,
    >)
        ensures
            Perds::hydrated(strategy, path, contents@, r),
            r is Ok ==> r->Ok_0@.wf(),
    {
        Perds::from_file(strategy, path, contents)
    }

    /// Makes a store that holds the entries of `value`, later entries winning
    /// over earlier ones of the same key, together with what a fresh log file
    /// must receive for it: one insert record per entry, in order, flushed
    /// whatever the strategy. For an empty seed there is nothing to write.
    pub fn new(value: Vec<(String, String)>, strategy: Strategy, path: PathBuf) -> (r: Result<
        (Perds, Append),
        PerdsError,
    >)
        ensures
            r is Ok,
            r->Ok_0.0@.wf(),
            r->Ok_0.0@ == (PerdsView {
                strategy,
                contents: apply_all(Map::empty(), seed_records(value@)),
                path,
                log: log_of(seed_records(value@)),
                flushed: log_of(seed_records(value@)).len(),
            }),
            r->Ok_0.1.bytes@ == log_of(seed_records(value@)),
            r->Ok_0.1.flush == (value@.len() > 0),
    {
        let mut inner: StringHashMap<String> = StringHashMap::new();
        let mut cmds: Vec<u8> = Vec::new();
        let ghost records = seed_records(value@);
        assert(texts(inner@) =~= Map::<Seq<char>, Seq<char>>::empty());
        assert(records.take(0) =~= Seq::<RecordView>::empty());
        let mut i: usize = 0;
        while i < value.len()
            invariant
                i <= value.len(),
                records == seed_records(value@),
                cmds@ == log_of(records.take(i as int)),
                texts(inner@) == apply_all(Map::empty(), records.take(i as int)),
                replayed(cmds@) == Ok::<Contents, postcard::Error>(texts(inner@)),
            decreases value.len() - i,
        {
            let key = &value[i].0;
            let val = &value[i].1;
            let mut pc = match encode_insert(key.as_str(), val.as_str()) {
                Ok(bytes) => bytes,
                Err(e) => {
                    return Err(e);
                },
            };
            text_fits(key.as_str());
            text_fits(val.as_str());
            let ghost before = inner@;
            proof {
                let record = records[i as int];
                let upto = records.take(i as int + 1);
                assert(upto.drop_last() =~= records.take(i as int));
                assert(upto.last() == record);
                lemma_replay_append(cmds@, record);
            }
            cmds.append(&mut pc);
            inner.insert(key.clone(), val.clone());
            assert(texts(inner@) =~= apply(texts(before), records[i as int]));
            i = i + 1;
        }
        assert(records.take(i as int) =~= records);
        let flush = value.len() > 0;
        let store = Perds {
            strategy,
            inner,
            path,
            log: Ghost(cmds@),
            flushed: Ghost(cmds@.len()),
        };
        Ok((store, Append { bytes: cmds, flush }))
    }

    /// What the key holds. A lookup in memory: the log is not read.
    pub fn get(&self, key: &String) -> (r: Option<&String>)
        ensures
            r.deep_view() == held(self@.contents, key@),
    {
        self.inner.get(key.as_str())
    }

    /// What must reach the log before `insert(k, v, ..)` may take effect: the
    /// insert record, flushed under `Stream`.
    pub fn append_insert(&self, k: &String, v: &String) -> (r: Result<Append, PerdsError>)
        ensures
            r is Ok,
            r->Ok_0.bytes@ == record_bytes(RecordView::Insert { key: k@, value: v@ }),
            r->Ok_0.flush == (self@.strategy is Stream),
    {
        let bytes = match encode_insert(k.as_str(), v.as_str()) {
            Ok(bytes) => bytes,
            Err(e) => {
                return Err(e);
            },
        };
        Ok(Append { bytes, flush: self.streams() })
    }

    /// What must reach the log before `remove(k, ..)` may take effect: the
    /// delete record, flushed under `Stream`. It is the same whether or not
    /// the key is held.
    pub fn append_remove(&self, k: &String) -> (r: Result<Append, PerdsError>)
        ensures
            r is Ok,
            r->Ok_0.bytes@ == record_bytes(RecordView::Delete { key: k@ }),
            r->Ok_0.flush == (self@.strategy is Stream),
    {
        let bytes = match encode_delete(k.as_str()) {
            Ok(bytes) => bytes,
            Err(e) => {
                return Err(e);
            },
        };
        Ok(Append { bytes, flush: self.streams() })
    }

    /// Sets `k` to `v`, given how appending `append_insert(k, v)` went, and
    /// hands back what `k` held before. If the append failed nothing changes
    /// and its error is returned.
    pub fn insert(&mut self, k: String, v: String, appended: Result<(), std::io::Error>) -> (r:
        Result<Option<String>, PerdsError>)
        requires
            old(self)@.wf(),
        ensures
            final(self)@.wf(),
            match appended {
                Ok(_) => {
                    &&& r is Ok
                    &&& r->Ok_0.deep_view() == held(old(self)@.contents, k@)
                    &&& final(self)@ == old(self)@.committed(
                        RecordView::Insert { key: k@, value: v@ },
                    )
                },
                Err(e) => {
                    &&& r == Err::<Option<String>, PerdsError>(PerdsError::FileError(e))
                    &&& final(self)@ == old(self)@
                },
            },
    {
        match appended {
            Err(e) => Err(PerdsError::FileError(e)),
            Ok(_) => {
                text_fits(k.as_str());
                text_fits(v.as_str());
                let previous = match self.inner.get(k.as_str()) {
                    Some(p) => Some(p.clone()),
                    None => None,
                };
                let ghost record = RecordView::Insert { key: k@, value: v@ };
                let ghost before = *self;
                proof {
                    lemma_replay_append(before@.log, record);
                }
                let streams = self.streams();
                self.inner.insert(k, v);
                self.log = Ghost(before@.log + record_bytes(record));
                if streams {
                    self.flushed = Ghost(self.log@.len());
                }
                assert(self@.contents =~= apply(before@.contents, record));
                Ok(previous)
            },
        }
    }

    /// Takes `k` out, given how appending `append_remove(k)` went, and hands
    /// back what `k` held. A key that is not held is no error: the record is
    /// in the log all the same and the map is as it was. If the append failed
    /// nothing changes and its error is returned.
    pub fn remove(&mut self, k: String, appended: Result<(), std::io::Error>) -> (r: Result<
        Option<String>,
        PerdsError,
    >)
        requires
            old(self)@.wf(),
        ensures
            final(self)@.wf(),
            match appended {
                Ok(_) => {
                    &&& r is Ok
                    &&& r->Ok_0.deep_view() == held(old(self)@.contents, k@)
                    &&& final(self)@ == old(self)@.committed(RecordView::Delete { key: k@ })
                    &&& !final(self)@.contents.contains_key(k@)
                    &&& !old(self)@.contents.contains_key(k@) ==> final(self)@.contents == old(
                        self,
                    )@.contents
                },
                Err(e) => {
                    &&& r == Err::<Option<String>, PerdsError>(PerdsError::FileError(e))
                    &&& final(self)@ == old(self)@
                },
            },
    {
        match appended {
            Err(e) => Err(PerdsError::FileError(e)),
            Ok(_) => {
                text_fits(k.as_str());
                let previous = match self.inner.get(k.as_str()) {
                    Some(p) => Some(p.clone()),
                    None => None,
                };
                let ghost record = RecordView::Delete { key: k@ };
                let ghost before = *self;
                proof {
                    lemma_replay_append(before@.log, record);
                }
                let streams = self.streams();
                self.inner.remove(k.as_str());
                self.log = Ghost(before@.log + record_bytes(record));
                if streams {
                    self.flushed = Ghost(self.log@.len());
                }
                assert(self@.contents =~= apply(before@.contents, record));
                assert(!before@.contents.contains_key(k@) ==> self@.contents =~= before@.contents);
                Ok(previous)
            },
        }
    }

    /// Takes note of how forcing the log to storage went. After a flush that
    /// succeeded every byte of the log is on storage; one that failed changes
    /// nothing and its error is returned.
    pub fn flush(&mut self, flushed: Result<(), std::io::Error>) -> (r: Result<(), PerdsError>)
        requires
            old(self)@.wf(),
        ensures
            final(self)@.wf(),
            match flushed {
                Ok(_) => r is Ok && final(self)@ == old(self)@.synced(),
                Err(e) => r == Err::<(), PerdsError>(PerdsError::FileError(e)) && final(self)@
                    == old(self)@,
            },
    {
        match flushed {
            Err(e) => Err(PerdsError::FileError(e)),
            Ok(_) => {
                self.flushed = Ghost(self.log@.len());
                Ok(())
            },
        }
    }

    fn streams(&self) -> (b: bool)
        ensures
            b == (self@.strategy is Stream),
    {
        match self.strategy {
            Strategy::Stream => true,
            Strategy::Manual => false,
        }
    }
}

/// A store made from a seed holds exactly the keys of the seed, each with the
/// value of its last entry. Where no key occurs twice that is the seed itself.
pub proof fn lemma_seed_contents(entries: Seq<(String, String)>)
    ensures
        forall|key: Seq<char>|
            apply_all(Map::empty(), seed_records(entries)).contains_key(key) <==> exists|i: int|
                0 <= i < entries.len() && (#[trigger] entries[i]).0@ == key,
        forall|i: int|
            0 <= i < entries.len() && (forall|j: int|
                i < j < entries.len() ==> (#[trigger] entries[j]).0@ != entries[i].0@)
                ==> apply_all(Map::empty(), seed_records(entries))[(#[trigger] entries[i]).0@]
                == entries[i].1@,
    decreases entries.len(),
{
    let records = seed_records(entries);
    if entries.len() > 0 {
        let before = entries.drop_last();
        let last = entries.last();
        lemma_seed_contents(before);
        assert(records.drop_last() =~= seed_records(before));
        let earlier = apply_all(Map::empty(), seed_records(before));
        let now = apply_all(Map::empty(), records);
        assert(now == earlier.insert(last.0@, last.1@));
        assert forall|key: Seq<char>| now.contains_key(key) <==> exists|i: int|
            0 <= i < entries.len() && (#[trigger] entries[i]).0@ == key by {
            if now.contains_key(key) {
                if key == last.0@ {
                    assert(entries[entries.len() - 1].0@ == key);
                } else {
                    let i = choose|i: int| 0 <= i < before.len() && (#[trigger] before[i]).0@ == key;
                    assert(entries[i].0@ == key);
                }
            }
            if exists|i: int| 0 <= i < entries.len() && (#[trigger] entries[i]).0@ == key {
                let i = choose|i: int| 0 <= i < entries.len() && (#[trigger] entries[i]).0@ == key;
                if i < before.len() {
                    assert(before[i].0@ == key);
                }
            }
        }
        assert forall|i: int|
            0 <= i < entries.len() && (forall|j: int|
                i < j < entries.len() ==> (#[trigger] entries[j]).0@ != entries[i].0@) implies now[(
            #[trigger] entries[i]).0@] == entries[i].1@ by {
            if i < before.len() {
                assert(entries[entries.len() - 1].0@ != entries[i].0@);
                assert(before[i] == entries[i]);
                assert forall|j: int| i < j < before.len() implies (#[trigger] before[j]).0@
                    != before[i].0@ by {
                    assert(before[j] == entries[j]);
                }
            }
        }
    }
}

/// Hydrating twice from the same bytes gives the same outcome both times: the
/// same container, or the same error.
pub proof fn lemma_hydration_repeats(
    bytes: Seq<u8>,
    first: Result<Perds, PerdsError>,
    second: Result<Perds, PerdsError>,
    strategy: Strategy,
    path: PathBuf,
)
    requires
        Perds::hydrated(strategy, path, bytes, first),
        Perds::hydrated(strategy, path, bytes, second),
    ensures
        first is Ok <==> second is Ok,
        first is Ok ==> first->Ok_0@ == second->Ok_0@,
        first is Err ==> first->Err_0 == second->Err_0,
{
}

} // verus!
