//! The storage engine: loading the logs, writing and removing keys, reading
//! values, and compaction.

use crate::bytes::Scan;
use crate::command::{
    command_at, lemma_command_at_advances, lemma_command_at_local,
    lemma_command_roundtrip, put, removal, Command,
};
use crate::error::KvError;
use crate::index::{CommandPos, Index};
use crate::logs::{append_last, ascending, has_gen, lemma_place_of, LogDir, LogView};
use crate::replay::{
    answers, apply, bounded, chunk_meaning, dir_complete, dir_sound, displaced, entry_ok,
    entry_value, index_ok, lemma_complete_sound, lemma_dir_sound_last, lemma_drop_below,
    lemma_entry_ok_transfer, lemma_index_ok_append, lemma_index_ok_push, lemma_replay_dir_append,
    lemma_replay_dir_pair, lemma_replay_dir_push_empty, lemma_replay_log_append,
    lemma_replay_log_carries, lemma_replay_log_index_ok, log_complete, log_sound, lookup,
    replay_dir, replay_log, replay_start, saturate, store_view, Replay,
};
use vstd::prelude::*;
use vstd::string::StringExecFns;

verus! {

/// The number of dead bytes above which the writer compacts the logs.
pub const COMPACTION_LIMIT: u64 = 1024 * 1024;

/// Replays the log of generation `gen`, whose bytes are `data`, into `index`,
/// and returns the number of bytes of the log, and of commands that the log
/// supersedes, that have died. A command that is cut off at the end of the
/// log ends the replay; bytes that cannot start a command are an error.
pub fn load(gen: u64, index: &mut Index, data: &[u8]) -> (loaded: Result<u64, KvError>)
    ensures
        final(index)@ == replay_log(
            gen,
            data@,
            0,
            Replay { index: old(index)@, uncompacted: 0 },
        ).index,
        loaded is Ok <==> log_sound(data@, 0),
        loaded matches Ok(dead) ==> dead == saturate(
            replay_log(gen, data@, 0, Replay { index: old(index)@, uncompacted: 0 }).uncompacted,
        ),
        loaded matches Err(e) ==> e is Serialize,
{
    let ghost start = Replay { index: old(index)@, uncompacted: 0 };
    let ghost mut state = start;
    let mut dead: u64 = 0;
    let mut at: usize = 0;
    loop
        invariant
            at <= data@.len(),
            start == (Replay { index: old(index)@, uncompacted: 0 }),
            index@ == state.index,
            dead == saturate(state.uncompacted),
            replay_log(gen, data@, at as int, state) == replay_log(gen, data@, 0, start),
            log_sound(data@, at as int) == log_sound(data@, 0),
        decreases data@.len() - at,
    {
        match Command::decode(data, at) {
            Scan::Done(command, end) => {
                proof {
                    lemma_command_at_advances(data@, at as int);
                    state = apply(state, gen, command@, at as int, end as int);
                }
                let len = (end - at) as u64;
                match command {
                    Command::Put { key, value } => {
                        let entry = CommandPos { gen, pos: at as u64, len };
                        if let Some(old_entry) = index.insert(key, entry) {
                            dead = dead.saturating_add(old_entry.len);
                        }
                    },
                    Command::Remove { key } => {
                        if let Some(old_entry) = index.remove(&key) {
                            dead = dead.saturating_add(old_entry.len);
                        }
                        dead = dead.saturating_add(len);
                    },
                }
                at = end;
            },
            Scan::Short => {
                assert(command_at(data@, at as int) is Short);
                assert(replay_log(gen, data@, at as int, state) == state);
                return Ok(dead);
            },
            Scan::Bad => {
                assert(command_at(data@, at as int) is Bad);
                assert(replay_log(gen, data@, at as int, state) == state);
                return Err(KvError::Serialize(String::from_str("malformed command")));
            },
        }
    }
}

/// The generation of the log that a store opens for writing in a directory
/// that holds `logs`: one above the largest, or one where there is none.
pub open spec fn first_gen(logs: Seq<LogView>) -> int {
    if logs.len() == 0 {
        1
    } else {
        logs.last().gen + 1
    }
}

/// The writing half of the store. It owns the data directory and the index,
/// appends every mutation to the log of the current generation, counts the
/// bytes that have died, and compacts the logs when they are too many.
pub struct KvWriter {
    dir: LogDir,
    index: Index,
    curr_gen: u64,
    safe_point: u64,
    uncompacted: u64,
}

impl View for KvWriter {
    type V = Map<Seq<char>, Seq<char>>;

    /// The keys of the store with their values.
    open spec fn view(&self) -> Map<Seq<char>, Seq<char>> {
        store_view(self.logs(), self.entries())
    }
}

impl KvWriter {
    /// The log files of the data directory.
    pub closed spec fn logs(&self) -> Seq<LogView> {
        self.dir@
    }

    /// The entries of the index.
    pub closed spec fn entries(&self) -> Map<Seq<char>, CommandPos> {
        self.index@
    }

    /// The generation of the log that is written to.
    pub closed spec fn spec_curr_gen(&self) -> u64 {
        self.curr_gen
    }

    /// The smallest generation that a reader may still open.
    pub closed spec fn spec_safe_point(&self) -> u64 {
        self.safe_point
    }

    /// The count of dead bytes.
    pub closed spec fn spec_uncompacted(&self) -> u64 {
        self.uncompacted
    }

    /// What holds of a writer between any two of its operations: the logs
    /// are sound, the index is what replaying them gives, every entry leads
    /// to its command, the current log is the last one and is made of whole
    /// commands, the counter is the replay's count of dead bytes, and no log
    /// lies below the safe point.
    pub closed spec fn wf(&self) -> bool {
        &&& self.dir.wf()
        &&& self.dir@.len() > 0
        &&& self.dir@.last().gen == self.curr_gen
        &&& dir_sound(self.dir@)
        &&& log_complete(self.dir@.last().data, 0)
        &&& self.index@ == replay_dir(self.dir@).index
        &&& self.uncompacted == saturate(replay_dir(self.dir@).uncompacted)
        &&& index_ok(self.dir@, self.index@)
        &&& self.safe_point <= self.dir@[0].gen
    }

    /// Opens the store on a data directory: replays every log in the order of
    /// the generations, then starts a new log one generation above the
    /// largest. The safe point is the smallest generation found, or the new
    /// one where the directory was empty.
    pub fn open(dir: LogDir) -> (opened: Result<KvWriter, KvError>)
        requires
            dir.wf(),
        ensures
            opened is Ok <==> dir_sound(dir@) && first_gen(dir@) <= u64::MAX,
            opened matches Err(e) ==> (if dir_sound(dir@) {
                e is Io
            } else {
                e is Serialize
            }),
            opened matches Ok(writer) ==> {
                &&& writer.wf()
                &&& writer.logs() == dir@.push(
                    LogView { gen: first_gen(dir@) as u64, data: Seq::empty() },
                )
                &&& writer.entries() == replay_dir(dir@).index
                &&& writer.spec_uncompacted() == saturate(replay_dir(dir@).uncompacted)
                &&& writer.spec_curr_gen() == first_gen(dir@)
                &&& writer.spec_safe_point() == if dir@.len() == 0 {
                    1
                } else {
                    dir@[0].gen
                }
            },
    {
        let mut disk = dir;
        let ghost logs = dir@;
        proof {
            disk.lemma_wf();
        }
        let mut index = Index::new();
        let mut dead: u64 = 0;
        let n = disk.len();
        let mut i: usize = 0;
        while i < n
            invariant
                i <= n,
                n == logs.len(),
                logs == dir@,
                disk@ == logs,
                disk.wf(),
                ascending(logs),
                bounded(logs),
                index@ == replay_dir(logs.take(i as int)).index,
                dead == saturate(replay_dir(logs.take(i as int)).uncompacted),
                index_ok(logs, index@),
                forall|j: int| 0 <= j < i ==> log_sound((#[trigger] logs[j]).data, 0),
            decreases n - i,
        {
            let ghost before = replay_dir(logs.take(i as int));
            let ghost fresh = Replay { index: before.index, uncompacted: 0 };
            proof {
                assert(logs.take(i + 1).drop_last() =~= logs.take(i as int));
                assert(logs.take(i + 1).last() == logs[i as int]);
                lemma_replay_log_carries(
                    logs[i as int].gen,
                    logs[i as int].data,
                    0,
                    fresh,
                    before.uncompacted,
                );
                assert(before == Replay {
                    index: fresh.index,
                    uncompacted: fresh.uncompacted + before.uncompacted,
                });
                lemma_replay_log_index_ok(logs, i as int, 0, fresh);
            }
            match load(disk.gen_at(i), &mut index, disk.data_at(i).as_slice()) {
                Ok(loaded) => {
                    dead = dead.saturating_add(loaded);
                },
                Err(e) => {
                    assert(!log_sound(logs[i as int].data, 0));
                    return Err(e);
                },
            }
            i = i + 1;
        }
        assert(logs.take(n as int) =~= logs);
        let curr_gen: u64 = if n == 0 {
            1
        } else {
            let last = disk.gen_at(n - 1);
            if last == u64::MAX {
                return Err(KvError::Io(String::from_str("no generation is left")));
            }
            last + 1
        };
        let safe_point: u64 = if n == 0 {
            curr_gen
        } else {
            disk.gen_at(0)
        };
        let created = disk.create(curr_gen, Vec::new());
        assert(created);
        proof {
            let log = LogView { gen: curr_gen, data: Seq::empty() };
            lemma_replay_dir_push_empty(logs, curr_gen);
            disk.lemma_wf();
            lemma_index_ok_push(logs, log, index@);
            lemma_dir_sound_last(logs, disk@);
        }
        Ok(KvWriter { dir: disk, index, curr_gen, safe_point, uncompacted: dead })
    }

    /// The count of dead bytes after a command of `key` has displaced what
    /// the index held for that key, and `more` bytes have died besides.
    pub open spec fn spec_dead_after(&self, key: Seq<char>, more: nat) -> u64 {
        saturate((self.spec_uncompacted() + displaced(self.entries(), key) + more) as nat)
    }

    /// The entry for a command of `len` bytes that is appended to the
    /// current log: the current generation, the length of the current log,
    /// and `len`.
    pub open spec fn spec_next_entry(&self, len: nat) -> CommandPos {
        CommandPos {
            gen: self.spec_curr_gen(),
            pos: self.logs().last().data.len() as u64,
            len: len as u64,
        }
    }

    /// Appends an encoded command to the current log and brings index and
    /// counter up to date with it.
    fn append_command(&mut self, key: String, command: &Command, bytes: &Vec<u8>)
        requires
            old(self).wf(),
            command@.key() == key@,
            bytes@ == command@.wire(),
        ensures
            final(self).wf(),
            final(self).logs() == append_last(old(self).logs(), bytes@),
            final(self).entries() == (if command@ is Remove {
                old(self).entries().remove(key@)
            } else {
                old(self).entries().insert(key@, old(self).spec_next_entry(bytes@.len()))
            }),
            final(self).entries() == apply(
                replay_dir(old(self).logs()),
                old(self).spec_curr_gen(),
                command@,
                old(self).logs().last().data.len() as int,
                (old(self).logs().last().data.len() + bytes@.len()) as int,
            ).index,
            final(self).spec_uncompacted() == old(self).spec_dead_after(
                key@,
                if command@ is Remove {
                    bytes@.len()
                } else {
                    0
                },
            ),
            final(self).spec_curr_gen() == old(self).spec_curr_gen(),
            final(self).spec_safe_point() == old(self).spec_safe_point(),
            final(self)@ == (if command@ is Remove {
                old(self)@.remove(key@)
            } else {
                old(self)@.insert(key@, command@->value)
            }),
    {
        let ghost logs = self.dir@;
        let ghost entries = self.index@;
        let ghost data = logs.last().data;
        proof {
            self.dir.lemma_wf();
            lemma_command_roundtrip(data, command@, Seq::empty());
            assert(data + bytes@ + Seq::<u8>::empty() =~= data + bytes@);
            lemma_replay_dir_append(logs, bytes@);
            lemma_index_ok_append(logs, bytes@, entries);
            lemma_dir_sound_last(logs, append_last(logs, bytes@));
        }
        let pos = self.dir.append(bytes.as_slice());
        let len = bytes.len() as u64;
        proof {
            self.dir.lemma_wf();
            lemma_place_of(self.dir@, self.dir@.len() - 1);
        }
        match command {
            Command::Put { .. } => {
                let entry = CommandPos { gen: self.curr_gen, pos, len };
                if let Some(old_entry) = self.index.insert(key, entry) {
                    self.uncompacted = self.uncompacted.saturating_add(old_entry.len);
                }
                assert(entry_ok(self.dir@, key@, entry));
                assert(self@ =~= old(self)@.insert(key@, command@->value));
            },
            Command::Remove { .. } => {
                if let Some(old_entry) = self.index.remove(&key) {
                    self.uncompacted = self.uncompacted.saturating_add(old_entry.len);
                }
                self.uncompacted = self.uncompacted.saturating_add(len);
                assert(self@ =~= old(self)@.remove(key@));
            },
        }
    }

    /// Whether the writer can still mint the two generations that a
    /// compaction takes.
    pub open spec fn can_compact(&self) -> bool {
        self.spec_curr_gen() <= u64::MAX - 2
    }

    /// Rewrites every live command into the log of a new generation, makes
    /// that generation the safe point, starts another generation for
    /// writing, and deletes the logs below the safe point. The store holds
    /// the same keys and values afterwards, and no dead byte.
    #[verifier::rlimit(60)]
    #[verifier::spinoff_prover]
    pub fn compaction(&mut self) -> (done: Result<(), KvError>)
        requires
            old(self).wf(),
        ensures
            final(self).wf(),
            final(self)@ == old(self)@,
            done is Ok <==> old(self).can_compact(),
            done matches Err(e) ==> e is Io,
            done is Err ==> {
                &&& final(self).logs() == old(self).logs()
                &&& final(self).entries() == old(self).entries()
                &&& final(self).spec_curr_gen() == old(self).spec_curr_gen()
                &&& final(self).spec_safe_point() == old(self).spec_safe_point()
                &&& final(self).spec_uncompacted() == old(self).spec_uncompacted()
            },
            done is Ok ==> {
                &&& final(self).spec_safe_point() == old(self).spec_curr_gen() + 1
                &&& final(self).spec_curr_gen() == old(self).spec_curr_gen() + 2
                &&& final(self).spec_uncompacted() == 0
                &&& final(self).logs().len() == 2
                &&& final(self).logs()[0].gen == old(self).spec_curr_gen() + 1
                &&& final(self).logs()[1].gen == old(self).spec_curr_gen() + 2
                &&& final(self).logs()[1].data.len() == 0
                &&& final(self).entries().dom() == old(self).entries().dom()
                &&& forall|key: Seq<char>| #[trigger]
                    final(self).entries().contains_key(key) ==> {
                        &&& final(self).entries()[key].gen == old(self).spec_curr_gen() + 1
                        &&& final(self).entries()[key].len == old(self).entries()[key].len
                    }
                &&& dir_complete(final(self).logs())
            },
    {
        if self.curr_gen > u64::MAX - 2 {
            return Err(KvError::Io(String::from_str("no generation is left")));
        }
        let temp_gen = self.curr_gen + 1;
        let next_gen = self.curr_gen + 2;
        let ghost old_logs = self.dir@;
        let ghost old_index = self.index@;
        let ghost n = old_logs.len() as int;
        proof {
            self.dir.lemma_wf();
            lemma_index_ok_push(old_logs, LogView { gen: temp_gen, data: Seq::empty() }, old_index);
        }
        let created = self.dir.create(temp_gen, Vec::new());
        assert(created);
        let items = self.index.items();
        let ghost mut fresh = replay_start();
        let mut i: usize = 0;
        while i < items.len()
            invariant
                i <= items@.len(),
                n == old_logs.len(),
                n > 0,
                temp_gen == old_logs.last().gen + 1,
                ascending(old_logs),
                self.dir.wf(),
                self.dir@.len() == n + 1,
                self.dir@.last().gen == temp_gen,
                log_complete(self.dir@.last().data, 0),
                fresh == replay_log(temp_gen, self.dir@.last().data, 0, replay_start()),
                fresh.uncompacted == 0,
                forall|k: Seq<char>|
                    fresh.index.contains_key(k) <==> exists|j: int|
                        0 <= j < i && (#[trigger] items@[j]).0@ == k,
                forall|a: int, b: int|
                    0 <= a < b < items@.len() ==> (#[trigger] items@[a]).0@ != (
                    #[trigger] items@[b]).0@,
                forall|j: int|
                    0 <= j < items@.len() ==> old_index.contains_pair(
                        (#[trigger] items@[j]).0@,
                        items@[j].1,
                    ),
                self.index@.dom() == old_index.dom(),
                forall|j: int|
                    0 <= j < i ==> self.index@[(#[trigger] items@[j]).0@]
                        == fresh.index[items@[j].0@],
                forall|j: int|
                    i <= j < items@.len() ==> self.index@[(#[trigger] items@[j]).0@]
                        == items@[j].1,
                index_ok(self.dir@, self.index@),
                forall|k: Seq<char>| #[trigger]
                    old_index.contains_key(k) ==> entry_value(self.dir@, self.index@[k])
                        == entry_value(old_logs, old_index[k]),
                forall|k: Seq<char>| #[trigger]
                    fresh.index.contains_key(k) ==> fresh.index[k].gen == temp_gen
                        && fresh.index[k].len == old_index[k].len,
            decreases items@.len() - i,
        {
            let key = items[i].0.clone();
            let entry = items[i].1;
            let ghost logs = self.dir@;
            let ghost index = self.index@;
            let ghost target = logs.last().data;
            proof {
                self.dir.lemma_wf();
                assert(old_index.contains_pair(items@[i as int].0@, items@[i as int].1));
                assert(index.dom().contains(key@));
                assert(index.contains_key(key@));
                assert(index[key@] == entry);
                assert(entry_ok(logs, key@, entry));
            }
            // An entry of a well-formed index names a log that is there and
            // bytes that the log holds, so neither error below can come about.
            let place = match self.dir.find(entry.gen) {
                Some(place) => place,
                None => {
                    return Err(KvError::ReaderNotFound);
                },
            };
            proof {
                lemma_place_of(logs, place as int);
                lemma_command_at_advances(logs[place as int].data, entry.pos as int);
            }
            let bytes = match self.dir.read_at(place, entry.pos, entry.len) {
                Some(bytes) => bytes,
                None => {
                    return Err(KvError::Io(String::from_str("failed to fill whole buffer")));
                },
            };
            let ghost source = logs[place as int].data;
            let ghost command = command_at(source, entry.pos as int)->Done_0;
            proof {
                let grown = target + bytes@;
                assert(grown.subrange(target.len() as int, target.len() + entry.len)
                    =~= source.subrange(entry.pos as int, entry.pos + entry.len));
                lemma_command_at_local(source, entry.pos as int, grown, target.len() as int);
                lemma_replay_log_append(temp_gen, target, bytes@, 0, replay_start());
                lemma_index_ok_append(logs, bytes@, index);
                assert(!fresh.index.contains_key(key@));
                fresh = apply(
                    fresh,
                    temp_gen,
                    command,
                    target.len() as int,
                    (target.len() + bytes@.len()) as int,
                );
            }
            let pos = self.dir.append(bytes.as_slice());
            let moved = CommandPos { gen: temp_gen, pos, len: entry.len };
            self.index.insert(key, moved);
            proof {
                self.dir.lemma_wf();
                lemma_place_of(self.dir@, n);
                assert(fresh.index[key@] == moved);
                assert(entry_ok(self.dir@, key@, moved));
                assert(self.index@.dom() =~= old_index.dom());
                assert forall|k: Seq<char>|
                    fresh.index.contains_key(k) <==> exists|j: int|
                        0 <= j < i + 1 && (#[trigger] items@[j]).0@ == k by {
                    if k == key@ {
                        assert(items@[i as int].0@ == k);
                    }
                }
            }
            i = i + 1;
        }
        self.safe_point = temp_gen;
        let ghost mid_logs = self.dir@;
        let ghost compacted = mid_logs.last();
        proof {
            self.dir.lemma_wf();
            lemma_index_ok_push(
                mid_logs,
                LogView { gen: next_gen, data: Seq::empty() },
                self.index@,
            );
        }
        let created = self.dir.create(next_gen, Vec::new());
        assert(created);
        let ghost full_logs = self.dir@;
        proof {
            self.dir.lemma_wf();
            let from = lemma_drop_below(full_logs, temp_gen);
            assert(full_logs[n].gen == temp_gen);
            assert(full_logs[n - 1].gen < temp_gen);
            assert(from == n);
            assert(full_logs.subrange(n, n + 2) =~= seq![
                compacted,
                LogView { gen: next_gen, data: Seq::empty() },
            ]);
            lemma_replay_dir_pair(compacted, next_gen);
        }
        self.curr_gen = next_gen;
        self.dir.remove_below(temp_gen);
        self.uncompacted = 0;
        proof {
            self.dir.lemma_wf();
            let logs = self.dir@;
            assert(self.index@ =~= fresh.index) by {
                assert forall|k: Seq<char>| self.index@.contains_key(k) implies #[trigger]
                    fresh.index.contains_key(k) by {
                    assert(old_index.contains_key(k));
                }
                assert forall|k: Seq<char>| #[trigger]
                    fresh.index.contains_key(k) implies self.index@.contains_key(k)
                    && self.index@[k] == fresh.index[k] by {
                    let j = choose|j: int|
                        0 <= j < items@.len() && (#[trigger] items@[j]).0@ == k;
                    assert(old_index.contains_pair(items@[j].0@, items@[j].1));
                }
            }
            assert forall|k: Seq<char>| #[trigger] self.index@.contains_key(k) implies entry_ok(
                logs,
                k,
                self.index@[k],
            ) && entry_value(logs, self.index@[k]) == entry_value(full_logs, self.index@[k]) by {
                lemma_place_of(full_logs, n);
                lemma_entry_ok_transfer(full_logs, logs, 0, k, self.index@[k]);
            }
            assert(self@ =~= old(self)@);
            assert(log_complete(logs.last().data, 0));
            assert(dir_complete(logs)) by {
                assert(logs[0] == compacted);
            }
            lemma_complete_sound(compacted.data, 0);
            assert(dir_sound(seq![compacted]));
            lemma_dir_sound_last(seq![compacted], logs);
        }
        Ok(())
    }

    /// Whether the count of dead bytes `dead` calls for a compaction.
    pub open spec fn calls_for_compaction(dead: u64) -> bool {
        dead > COMPACTION_LIMIT
    }

    /// What a compaction that was due and could run has left: the logs of
    /// the two generations above `before`'s, the second empty, both made of
    /// whole commands; the first of them as the safe point, the second as
    /// the current generation; and no dead byte.
    pub open spec fn compacted(before: KvWriter, after: KvWriter) -> bool {
        &&& after.spec_safe_point() == before.spec_curr_gen() + 1
        &&& after.spec_curr_gen() == before.spec_curr_gen() + 2
        &&& after.spec_uncompacted() == 0
        &&& after.logs().len() == 2
        &&& after.logs()[0].gen == before.spec_curr_gen() + 1
        &&& after.logs()[1].gen == before.spec_curr_gen() + 2
        &&& after.logs()[1].data.len() == 0
        &&& dir_complete(after.logs())
    }

    /// What setting `key` to `value` makes of the writer `before`, and what
    /// it reports. The key is set. Where the count of dead bytes stays
    /// within the limit, the command stands at the end of the current log,
    /// the index leads to it, and the command that it supersedes is counted
    /// as dead. Where the count passes the limit, the logs are compacted; if
    /// no generation is left for that, the error is reported and the logs
    /// stay as the append left them.
    pub open spec fn set_done(
        before: KvWriter,
        after: KvWriter,
        key: Seq<char>,
        value: Seq<char>,
        done: Result<(), KvError>,
    ) -> bool {
        let dead = before.spec_dead_after(key, 0);
        let compacts = Self::calls_for_compaction(dead) && before.can_compact();
        &&& after.wf()
        &&& after@ == before@.insert(key, value)
        &&& after.spec_safe_point() >= before.spec_safe_point()
        &&& done is Err <==> Self::calls_for_compaction(dead) && !before.can_compact()
        &&& done matches Err(e) ==> e is Io
        &&& !compacts ==> {
            &&& after.logs() == append_last(before.logs(), put(key, value).wire())
            &&& after.entries() == before.entries().insert(
                key,
                before.spec_next_entry(put(key, value).wire().len()),
            )
            &&& after.spec_curr_gen() == before.spec_curr_gen()
            &&& after.spec_safe_point() == before.spec_safe_point()
            &&& after.spec_uncompacted() == dead
        }
        &&& compacts ==> {
            &&& Self::compacted(before, after)
            &&& after.entries().dom() == before.entries().dom().insert(key)
        }
    }

    /// What removing `key` makes of the writer `before`, and what it
    /// reports. A key that the store does not hold is an error and changes
    /// nothing. Otherwise the key is removed. Where the count of dead bytes
    /// stays within the limit, the command stands at the end of the current
    /// log, the index has lost the key, and the command with the one that it
    /// supersedes is counted as dead. Where the count passes the limit, the
    /// logs are compacted; if no generation is left for that, the error is
    /// reported and the logs stay as the append left them.
    pub open spec fn remove_done(
        before: KvWriter,
        after: KvWriter,
        key: Seq<char>,
        done: Result<(), KvError>,
    ) -> bool {
        let dead = before.spec_dead_after(key, removal(key).wire().len());
        let compacts = Self::calls_for_compaction(dead) && before.can_compact();
        &&& after.wf()
        &&& after@ == before@.remove(key)
        &&& after.spec_safe_point() >= before.spec_safe_point()
        &&& !before@.contains_key(key) ==> {
            &&& done matches Err(KvError::KeyNotFound)
            &&& after.logs() == before.logs()
            &&& after.entries() == before.entries()
            &&& after.spec_curr_gen() == before.spec_curr_gen()
            &&& after.spec_safe_point() == before.spec_safe_point()
            &&& after.spec_uncompacted() == before.spec_uncompacted()
        }
        &&& before@.contains_key(key) ==> {
            &&& done is Err <==> Self::calls_for_compaction(dead) && !before.can_compact()
            &&& done matches Err(e) ==> e is Io
            &&& !compacts ==> {
                &&& after.logs() == append_last(before.logs(), removal(key).wire())
                &&& after.entries() == before.entries().remove(key)
                &&& after.spec_curr_gen() == before.spec_curr_gen()
                &&& after.spec_safe_point() == before.spec_safe_point()
                &&& after.spec_uncompacted() == dead
            }
            &&& compacts ==> {
                &&& Self::compacted(before, after)
                &&& after.entries().dom() == before.entries().dom().remove(key)
            }
        }
    }

    /// Compacts the logs where the count of dead bytes is above the limit.
    fn compact_if_due(&mut self) -> (done: Result<(), KvError>)
        requires
            old(self).wf(),
        ensures
            final(self).wf(),
            final(self)@ == old(self)@,
            final(self).spec_safe_point() >= old(self).spec_safe_point(),
            done is Err <==> Self::calls_for_compaction(old(self).spec_uncompacted())
                && !old(self).can_compact(),
            done matches Err(e) ==> e is Io,
            Self::calls_for_compaction(old(self).spec_uncompacted()) && old(self).can_compact()
                ==> {
                &&& Self::compacted(*old(self), *final(self))
                &&& final(self).entries().dom() == old(self).entries().dom()
            },
            !(Self::calls_for_compaction(old(self).spec_uncompacted()) && old(self).can_compact())
                ==> {
                &&& final(self).logs() == old(self).logs()
                &&& final(self).entries() == old(self).entries()
                &&& final(self).spec_curr_gen() == old(self).spec_curr_gen()
                &&& final(self).spec_safe_point() == old(self).spec_safe_point()
                &&& final(self).spec_uncompacted() == old(self).spec_uncompacted()
            },
    {
        if self.uncompacted > COMPACTION_LIMIT {
            proof {
                self.dir.lemma_wf();
            }
            self.compaction()
        } else {
            Ok(())
        }
    }

    /// Sets `key` to `value`: appends the command to the current log,
    /// records its position in the index, counts the command that it
    /// supersedes as dead, and compacts the logs where the count is above
    /// the limit. Where the compaction that is due cannot run, the key is
    /// set all the same and the error is reported.
    pub fn set(&mut self, key: String, value: String) -> (done: Result<(), KvError>)
        requires
            old(self).wf(),
        ensures
            Self::set_done(*old(self), *final(self), key@, value@, done),
    {
        let command = Command::Put { key: key.clone(), value };
        let bytes = command.encode();
        self.append_command(key, &command, &bytes);
        let ghost appended = *self;
        let done = self.compact_if_due();
        proof {
            assert(appended.entries().dom() =~= old(self).entries().dom().insert(key@));
        }
        done
    }

    /// Removes `key`: appends the command to the current log, drops the key
    /// from the index, counts the command and the one that it supersedes as
    /// dead, and compacts the logs where the count is above the limit. A key
    /// that the store does not hold is an error, and nothing is written for
    /// it. Where the compaction that is due cannot run, the key is removed
    /// all the same and the error is reported.
    pub fn remove(&mut self, key: String) -> (done: Result<(), KvError>)
        requires
            old(self).wf(),
        ensures
            Self::remove_done(*old(self), *final(self), key@, done),
    {
        if !self.index.contains_key(&key) {
            assert(self@.remove(key@) =~= self@);
            return Err(KvError::KeyNotFound);
        }
        let command = Command::Remove { key: key.clone() };
        let bytes = command.encode();
        self.append_command(key, &command, &bytes);
        let ghost appended = *self;
        let done = self.compact_if_due();
        proof {
            assert(appended.entries().dom() =~= old(self).entries().dom().remove(key@));
        }
        done
    }
}

impl KvWriter {
    /// What a well-formed writer is known by outside this file: its
    /// directory is well-formed, its logs ascend and are sound, every entry
    /// of its index leads to its command, and its index and counter are what
    /// replaying its logs gives.
    pub proof fn lemma_wf(&self)
        requires
            self.wf(),
        ensures
            ascending(self.logs()),
            bounded(self.logs()),
            self.logs().len() > 0,
            self.logs().last().gen == self.spec_curr_gen(),
            dir_sound(self.logs()),
            log_complete(self.logs().last().data, 0),
            index_ok(self.logs(), self.entries()),
            self.entries() == replay_dir(self.logs()).index,
            self.spec_uncompacted() == saturate(replay_dir(self.logs()).uncompacted),
            self.spec_safe_point() <= self.logs()[0].gen,
            forall|key: Seq<char>| self@.contains_key(key) <==> self.entries().contains_key(key),
    {
        self.dir.lemma_wf();
    }

    /// The data directory.
    pub fn dir(&self) -> (dir: &LogDir)
        requires
            self.wf(),
        ensures
            dir.wf(),
            dir@ == self.logs(),
    {
        &self.dir
    }

    /// The index.
    pub fn index(&self) -> (index: &Index)
        ensures
            index@ == self.entries(),
    {
        &self.index
    }

    /// The generation of the log that is written to.
    pub fn curr_gen(&self) -> (gen: u64)
        ensures
            gen == self.spec_curr_gen(),
    {
        self.curr_gen
    }

    /// The smallest generation that a reader may still open.
    pub fn safe_point(&self) -> (gen: u64)
        ensures
            gen == self.spec_safe_point(),
    {
        self.safe_point
    }

    /// The count of dead bytes.
    pub fn uncompacted(&self) -> (dead: u64)
        ensures
            dead == self.spec_uncompacted(),
    {
        self.uncompacted
    }

    /// Gives the data directory back, as a store does that shuts down.
    pub fn close(self) -> (dir: LogDir)
        requires
            self.wf(),
        ensures
            dir.wf(),
            dir@ == self.logs(),
    {
        self.dir
    }
}

/// The reading half of the store. It keeps a handle for every generation
/// that it has read from, and lets go of the handles below the safe point.
pub struct KvReader {
    readers: Vec<u64>,
}

impl KvReader {
    /// Whether the reader holds a handle for generation `gen`.
    pub closed spec fn holds(&self, gen: u64) -> bool {
        self.readers@.contains(gen)
    }

    /// A reader that holds no handle.
    pub fn new() -> (reader: KvReader)
        ensures
            forall|gen: u64| !reader.holds(gen),
    {
        KvReader { readers: Vec::new() }
    }

    /// Whether the reader holds a handle for generation `gen`.
    pub fn is_open(&self, gen: u64) -> (open: bool)
        ensures
            open == self.holds(gen),
    {
        let mut i: usize = 0;
        while i < self.readers.len()
            invariant
                i <= self.readers@.len(),
                forall|j: int| 0 <= j < i ==> self.readers@[j] != gen,
            decreases self.readers@.len() - i,
        {
            if self.readers[i] == gen {
                return true;
            }
            i = i + 1;
        }
        false
    }

    /// Lets go of the handles of the generations below `safe_point`.
    fn evict(&mut self, safe_point: u64)
        ensures
            forall|gen: u64|
                final(self).holds(gen) <==> old(self).holds(gen) && gen >= safe_point,
    {
        let mut kept: Vec<u64> = Vec::new();
        let mut i: usize = 0;
        while i < self.readers.len()
            invariant
                i <= self.readers@.len(),
                forall|gen: u64|
                    kept@.contains(gen) <==> self.readers@.take(i as int).contains(gen) && gen
                        >= safe_point,
            decreases self.readers@.len() - i,
        {
            let gen = self.readers[i];
            let ghost before = kept@;
            if gen >= safe_point {
                kept.push(gen);
            }
            proof {
                let seen = self.readers@.take(i as int);
                let more = self.readers@.take(i + 1);
                assert(more =~= seen.push(gen));
                assert forall|g: u64|
                    kept@.contains(g) <==> more.contains(g) && g >= safe_point by {
                    assert(before.contains(g) <==> seen.contains(g) && g >= safe_point);
                    if kept@.contains(g) {
                        let j = choose|j: int| 0 <= j < kept@.len() && kept@[j] == g;
                        if j < before.len() {
                            assert(before[j] == g);
                            assert(before.contains(g));
                            let k = choose|k: int| 0 <= k < seen.len() && seen[k] == g;
                            assert(more[k] == g);
                        } else {
                            assert(more[i as int] == g);
                        }
                    }
                    if more.contains(g) && g >= safe_point {
                        let k = choose|k: int| 0 <= k < more.len() && more[k] == g;
                        if k < i {
                            assert(seen[k] == g);
                            assert(seen.contains(g));
                            let j = choose|j: int| 0 <= j < before.len() && before[j] == g;
                            assert(kept@[j] == g);
                        } else {
                            assert(kept@[kept@.len() - 1] == g);
                        }
                    }
                }
            }
            i = i + 1;
        }
        assert(self.readers@.take(self.readers@.len() as int) =~= self.readers@);
        self.readers = kept;
    }

    /// Reads the value of `key`. The reader first lets go of the handles
    /// below `safe_point`. It then finds the key's entry in `index`, opens
    /// the log of the entry's generation in `dir` unless it holds a handle
    /// for it, reads the entry's bytes and decodes them.
    pub fn get(&mut self, dir: &LogDir, index: &Index, safe_point: u64, key: String) -> (reply:
        Result<Option<String>, KvError>)
        requires
            dir.wf(),
        ensures
            answers(reply, lookup(dir@, index@, key@)),
            forall|gen: u64|
                final(self).holds(gen) <==> (old(self).holds(gen) && gen >= safe_point) || (
                index@.contains_key(key@) && has_gen(dir@, gen) && gen == index@[key@].gen),
    {
        self.evict(safe_point);
        let ghost evicted = self.readers@;
        let entry = match index.get(&key) {
            Some(entry) => entry,
            None => {
                return Ok(None);
            },
        };
        let place = match dir.find(entry.gen) {
            Some(place) => place,
            None => {
                return Err(KvError::ReaderNotFound);
            },
        };
        proof {
            dir.lemma_wf();
            lemma_place_of(dir@, place as int);
        }
        if !self.is_open(entry.gen) {
            self.readers.push(entry.gen);
            assert(self.readers@[self.readers@.len() - 1] == entry.gen);
        }
        proof {
            assert forall|gen: u64|
                self.readers@.contains(gen) <==> evicted.contains(gen) || gen == entry.gen by {
                if self.readers@.contains(gen) && gen != entry.gen {
                    let j = choose|j: int| 0 <= j < self.readers@.len() && self.readers@[j] == gen;
                    assert(evicted[j] == gen);
                }
                if evicted.contains(gen) {
                    let j = choose|j: int| 0 <= j < evicted.len() && evicted[j] == gen;
                    assert(self.readers@[j] == gen);
                }
            }
        }
        Self::read_entry(dir, place, entry)
    }

    /// Reads the bytes of `entry` from the log at place `place` and decodes
    /// them.
    fn read_entry(dir: &LogDir, place: usize, entry: CommandPos) -> (reply: Result<
        Option<String>,
        KvError,
    >)
        requires
            place < dir@.len(),
        ensures
            entry.pos + entry.len > dir@[place as int].data.len() ==> reply matches Err(
                KvError::Io(_),
            ),
            entry.pos + entry.len <= dir@[place as int].data.len() ==> answers(
                reply,
                chunk_meaning(
                    dir@[place as int].data.subrange(entry.pos as int, entry.pos + entry.len),
                ),
            ),
    {
        let chunk = match dir.read_at(place, entry.pos, entry.len) {
            Some(chunk) => chunk,
            None => {
                return Err(KvError::Io(String::from_str("failed to fill whole buffer")));
            },
        };
        match Command::decode(chunk.as_slice(), 0) {
            Scan::Done(command, end) => {
                if end != chunk.len() {
                    return Err(KvError::Serialize(String::from_str("trailing bytes")));
                }
                match command {
                    Command::Put { key, value } => Ok(Some(value)),
                    Command::Remove { key } => Ok(None),
                }
            },
            _ => Err(KvError::Serialize(String::from_str("malformed command"))),
        }
    }
}

} // verus!