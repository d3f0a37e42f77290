//! The store as its users see it: a map from keys to values that can be
//! written, read, and opened again on the directory that it left behind.

use crate::engine::{first_gen, KvReader, KvWriter};
use crate::error::KvError;
use crate::index::CommandPos;
use crate::logs::{ascending, LogDir, LogView};
use crate::replay::{
    dir_sound, index_ok, lemma_index_ok_push, lemma_lookup_ok, lemma_replay_dir_index_ok,
    replay_dir, saturate, store_view,
};
use vstd::prelude::*;

verus! {

/// What every storage engine offers: setting, reading and removing keys.
pub trait KvsEngine: Sized {
    /// The keys that the engine holds, with their values.
    spec fn contents(&self) -> Map<Seq<char>, Seq<char>>;

    /// Whether the engine is fit for use.
    spec fn ready(&self) -> bool;

    /// Sets `key` to `value`. An engine that reports an error has either
    /// set the key or left everything as it was.
    fn set(&mut self, key: String, value: String) -> (done: Result<(), KvError>)
        requires
            old(self).ready(),
        ensures
            final(self).ready(),
            done is Ok ==> final(self).contents() == old(self).contents().insert(key@, value@),
            done is Err ==> {
                ||| final(self).contents() == old(self).contents()
                ||| final(self).contents() == old(self).contents().insert(key@, value@)
            },
    ;

    /// Reads the value of `key`, or nothing where the engine does not hold
    /// the key.
    fn get(&mut self, key: String) -> (reply: Result<Option<String>, KvError>)
        requires
            old(self).ready(),
        ensures
            final(self).ready(),
            final(self).contents() == old(self).contents(),
            reply matches Ok(Some(text)) ==> old(self).contents().contains_key(key@) && text@
                == old(self).contents()[key@],
            reply matches Ok(None) ==> !old(self).contents().contains_key(key@),
    ;

    /// Removes `key`. A key that the engine does not hold is an error.
    fn remove(&mut self, key: String) -> (done: Result<(), KvError>)
        requires
            old(self).ready(),
        ensures
            final(self).ready(),
            final(self).contents() == old(self).contents().remove(key@),
            done is Ok ==> old(self).contents().contains_key(key@),
            !old(self).contents().contains_key(key@) ==> done matches Err(KvError::KeyNotFound),
    ;
}

/// The log-structured store: a writer, which owns the logs and the index,
/// and a reader with its own handles on the logs.
pub struct KvStore {
    writer: KvWriter,
    reader: KvReader,
}

impl View for KvStore {
    type V = Map<Seq<char>, Seq<char>>;

    /// The keys of the store with their values.
    closed spec fn view(&self) -> Map<Seq<char>, Seq<char>> {
        self.writer@
    }
}

impl KvStore {
    /// The writer of the store.
    pub closed spec fn spec_writer(&self) -> KvWriter {
        self.writer
    }

    /// The smallest generation that a reader may still open.
    pub open spec fn spec_safe_point(&self) -> u64 {
        self.spec_writer().spec_safe_point()
    }

    /// The reader of the store.
    pub closed spec fn spec_reader(&self) -> KvReader {
        self.reader
    }

    /// The store is what its writer holds, and the writer is well-formed.
    pub closed spec fn wf(&self) -> bool {
        self.writer.wf()
    }

    /// A store is what its writer holds: the laws of the writer are laws of
    /// the store.
    pub proof fn law_store_is_its_writer(&self)
        ensures
            self@ == self.spec_writer()@,
            self.wf() == self.spec_writer().wf(),
    {
    }

    /// Whether a reader that reads `key` holds a handle for generation `gen`
    /// afterwards: it keeps the handles that it had at the safe point or
    /// above, and has one for the generation of the key's entry.
    pub open spec fn held_after(
        reader: KvReader,
        writer: KvWriter,
        key: Seq<char>,
        gen: u64,
    ) -> bool {
        ||| reader.holds(gen) && gen >= writer.spec_safe_point()
        ||| writer.entries().contains_key(key) && gen == writer.entries()[key].gen
    }

    /// Opens the store on a data directory. The store holds what replaying
    /// the logs of the directory gives. Logs of which one holds bytes that
    /// cannot start a command are refused, and so is a directory above
    /// whose largest generation there is none left.
    pub fn open(dir: LogDir) -> (opened: Result<KvStore, KvError>)
        requires
            dir.wf(),
        ensures
            opened is Ok <==> dir_sound(dir@) && first_gen(dir@) <= u64::MAX,
            opened matches Err(e) ==> (if dir_sound(dir@) {
                e is Io
            } else {
                e is Serialize
            }),
            opened matches Ok(store) ==> {
                &&& store.wf()
                &&& store@ == store_view(dir@, replay_dir(dir@).index)
                &&& store.spec_writer().logs() == dir@.push(
                    LogView { gen: first_gen(dir@) as u64, data: Seq::empty() },
                )
                &&& store.spec_writer().entries() == replay_dir(dir@).index
                &&& store.spec_writer().spec_uncompacted() == saturate(
                    replay_dir(dir@).uncompacted,
                )
                &&& store.spec_writer().spec_curr_gen() == first_gen(dir@)
                &&& store.spec_writer().spec_safe_point() == if dir@.len() == 0 {
                    1
                } else {
                    dir@[0].gen
                }
                &&& forall|gen: u64| !store.spec_reader().holds(gen)
            },
    {
        match KvWriter::open(dir) {
            Ok(writer) => {
                proof {
                    writer.lemma_wf();
                    dir.lemma_wf();
                    lemma_replay_dir_index_ok(dir@);
                    assert(writer.logs().drop_last() =~= dir@);
                    lemma_reopened_view(dir@, writer.logs(), writer.entries());
                }
                Ok(KvStore { writer, reader: KvReader::new() })
            },
            Err(e) => Err(e),
        }
    }

    /// The writer of the store.
    pub fn writer(&self) -> (writer: &KvWriter)
        ensures
            *writer == self.spec_writer(),
    {
        &self.writer
    }

    /// Another reader of the store, which holds no handle yet.
    pub fn reader(&self) -> (reader: KvReader)
        ensures
            forall|gen: u64| !reader.holds(gen),
    {
        KvReader::new()
    }

    /// Shuts the store down and gives the data directory back.
    pub fn close(self) -> (dir: LogDir)
        requires
            self.wf(),
        ensures
            dir.wf(),
            dir@ == self.spec_writer().logs(),
    {
        self.writer.close()
    }
}

/// The store that a directory is opened to is the store that had the
/// directory before: a new log without bytes changes no value.
pub proof fn lemma_reopened_view(
    dir: Seq<LogView>,
    logs: Seq<LogView>,
    entries: Map<Seq<char>, CommandPos>,
)
    requires
        ascending(logs),
        logs.len() > 0,
        logs.drop_last() == dir,
        index_ok(dir, entries),
    ensures
        store_view(logs, entries) == store_view(dir, entries),
{
    assert(logs =~= dir.push(logs.last()));
    lemma_index_ok_push(dir, logs.last(), entries);
    assert(store_view(logs, entries) =~= store_view(dir, entries));
}

impl KvsEngine for KvStore {
    open spec fn contents(&self) -> Map<Seq<char>, Seq<char>> {
        self@
    }

    open spec fn ready(&self) -> bool {
        self.wf()
    }

    /// Sets `key` to `value` through the writer: what `KvWriter::set` says
    /// of the writer holds of the writer of the store, and the reader stays
    /// as it was.
    fn set(&mut self, key: String, value: String) -> (done: Result<(), KvError>)
        ensures
            KvWriter::set_done(
                old(self).spec_writer(),
                final(self).spec_writer(),
                key@,
                value@,
                done,
            ),
            final(self)@ == old(self)@.insert(key@, value@),
            final(self).spec_reader() == old(self).spec_reader(),
    {
        self.writer.set(key, value)
    }

    /// Reads the value of `key` through the reader of the store, which
    /// first lets go of its handles below the safe point.
    fn get(&mut self, key: String) -> (reply: Result<Option<String>, KvError>)
        ensures
            reply is Ok,
            reply matches Ok(None) <==> !old(self)@.contains_key(key@),
            final(self).spec_writer() == old(self).spec_writer(),
            forall|gen: u64|
                final(self).spec_reader().holds(gen) <==> Self::held_after(
                    old(self).spec_reader(),
                    old(self).spec_writer(),
                    key@,
                    gen,
                ),
    {
        proof {
            self.writer.lemma_wf();
            if self.writer.entries().contains_key(key@) {
                lemma_lookup_ok(self.writer.logs(), self.writer.entries(), key@);
            }
        }
        self.reader.get(self.writer.dir(), self.writer.index(), self.writer.safe_point(), key)
    }

    /// Removes `key` through the writer: what `KvWriter::remove` says of
    /// the writer holds of the writer of the store, and the reader stays as
    /// it was.
    fn remove(&mut self, key: String) -> (done: Result<(), KvError>)
        ensures
            KvWriter::remove_done(
                old(self).spec_writer(),
                final(self).spec_writer(),
                key@,
                done,
            ),
            final(self).spec_reader() == old(self).spec_reader(),
    {
        self.writer.remove(key)
    }
}

} // verus!
