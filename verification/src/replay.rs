//! What a data directory means: the index and the count of dead bytes that
//! replaying its logs gives, and the value that an index entry leads to.

use crate::bytes::Parse;
use crate::command::{
    command_at, lemma_command_at_advances, lemma_command_at_end, lemma_command_at_local,
    CommandView,
};
use crate::error::KvError;
use crate::index::CommandPos;
use crate::logs::{
    append_last, ascending, data_of, drop_below, has_gen, lemma_place_of, place_of, LogView,
};
use vstd::prelude::*;

verus! {

/// The outcome of a replay: the index, and the number of bytes in the logs
/// that no entry of the index leads to any more.
pub struct Replay {
    pub index: Map<Seq<char>, CommandPos>,
    pub uncompacted: nat,
}

/// The largest count that fits the counter of dead bytes, or `n` where it
/// fits.
pub open spec fn saturate(n: nat) -> u64 {
    if n > u64::MAX {
        u64::MAX
    } else {
        n as u64
    }
}

/// The length of the command that `index` holds for `key`, or nothing where
/// it holds none: the bytes that die when the key is written or removed.
pub open spec fn displaced(index: Map<Seq<char>, CommandPos>, key: Seq<char>) -> nat {
    if index.contains_key(key) {
        index[key].len as nat
    } else {
        0
    }
}

/// The replay before any log was read.
pub open spec fn replay_start() -> Replay {
    Replay { index: Map::empty(), uncompacted: 0 }
}

/// The effect on a replay of one command that was found in the log of
/// generation `gen` from offset `at` up to offset `end`.
pub open spec fn apply(state: Replay, gen: u64, command: CommandView, at: int, end: int) -> Replay {
    match command {
        CommandView::Put { key, value } => Replay {
            index: state.index.insert(
                key,
                CommandPos { gen, pos: at as u64, len: (end - at) as u64 },
            ),
            uncompacted: state.uncompacted + displaced(state.index, key),
        },
        CommandView::Remove { key } => Replay {
            index: state.index.remove(key),
            uncompacted: state.uncompacted + displaced(state.index, key) + (end - at) as nat,
        },
    }
}

/// Replays the commands of one log from offset `at` on. The replay stops at
/// the end of the log, or where the bytes no longer make a whole command.
pub open spec fn replay_log(gen: u64, bytes: Seq<u8>, at: int, state: Replay) -> Replay
    decreases bytes.len() - at,
{
    match command_at(bytes, at) {
        Parse::Done(command, end) => if at < end {
            replay_log(gen, bytes, end, apply(state, gen, command, at, end))
        } else {
            state
        },
        _ => state,
    }
}

/// Whether a log, read from offset `at` on, holds no bytes that cannot start
/// a command. A command that is cut off at the end of the log is tolerated.
pub open spec fn log_sound(bytes: Seq<u8>, at: int) -> bool
    decreases bytes.len() - at,
{
    match command_at(bytes, at) {
        Parse::Done(command, end) => at < end ==> log_sound(bytes, end),
        Parse::Short => true,
        Parse::Bad => false,
    }
}

/// Whether a log, read from offset `at` on, is made of whole commands up to
/// its last byte.
pub open spec fn log_complete(bytes: Seq<u8>, at: int) -> bool
    decreases bytes.len() - at,
{
    if at == bytes.len() {
        true
    } else {
        match command_at(bytes, at) {
            Parse::Done(command, end) => at < end && log_complete(bytes, end),
            _ => false,
        }
    }
}

/// Replays the logs of a directory in the order of their generations.
pub open spec fn replay_dir(logs: Seq<LogView>) -> Replay
    decreases logs.len(),
{
    if logs.len() == 0 {
        replay_start()
    } else {
        replay_log(logs.last().gen, logs.last().data, 0, replay_dir(logs.drop_last()))
    }
}

/// Whether every log of a directory is sound.
pub open spec fn dir_sound(logs: Seq<LogView>) -> bool {
    forall|i: int| 0 <= i < logs.len() ==> log_sound((#[trigger] logs[i]).data, 0)
}

/// Whether the entry `entry` of `key` leads to a `Put` command of that key
/// in the logs, of just the length that the entry gives.
pub open spec fn entry_ok(logs: Seq<LogView>, key: Seq<char>, entry: CommandPos) -> bool {
    &&& has_gen(logs, entry.gen)
    &&& command_at(data_of(logs, entry.gen), entry.pos as int) is Done
    &&& command_at(data_of(logs, entry.gen), entry.pos as int)->Done_0 is Put
    &&& command_at(data_of(logs, entry.gen), entry.pos as int)->Done_0.key() == key
    &&& command_at(data_of(logs, entry.gen), entry.pos as int)->Done_1 == entry.pos + entry.len
}

/// The value of the command that `entry` leads to.
pub open spec fn entry_value(logs: Seq<LogView>, entry: CommandPos) -> Seq<char> {
    command_at(data_of(logs, entry.gen), entry.pos as int)->Done_0->value
}

/// Whether every entry of `index` leads to its command.
pub open spec fn index_ok(logs: Seq<LogView>, index: Map<Seq<char>, CommandPos>) -> bool {
    forall|key: Seq<char>| #[trigger]
        index.contains_key(key) ==> entry_ok(logs, key, index[key])
}

/// The store that logs and index stand for: each key of the index with the
/// value that its entry leads to.
pub open spec fn store_view(logs: Seq<LogView>, index: Map<Seq<char>, CommandPos>) -> Map<
    Seq<char>,
    Seq<char>,
> {
    Map::new(
        |key: Seq<char>| index.contains_key(key),
        |key: Seq<char>| entry_value(logs, index[key]),
    )
}

/// Replaying a log that is complete, with one more command behind it, is
/// replaying the log and then applying that command.
pub proof fn lemma_replay_log_append(
    gen: u64,
    bytes: Seq<u8>,
    more: Seq<u8>,
    at: int,
    state: Replay,
)
    requires
        0 <= at <= bytes.len(),
        log_complete(bytes, at),
        command_at(bytes + more, bytes.len() as int) is Done,
        command_at(bytes + more, bytes.len() as int)->Done_1 == bytes.len() + more.len(),
    ensures
        log_complete(bytes + more, at),
        replay_log(gen, bytes + more, at, state) == apply(
            replay_log(gen, bytes, at, state),
            gen,
            command_at(bytes + more, bytes.len() as int)->Done_0,
            bytes.len() as int,
            (bytes.len() + more.len()) as int,
        ),
    decreases bytes.len() - at,
{
    let all = bytes + more;
    if at == bytes.len() {
        lemma_command_at_advances(all, at);
        let end = command_at(all, at)->Done_1;
        assert(log_complete(all, end));
        lemma_command_at_end(all);
        lemma_command_at_end(bytes);
        assert(command_at(all, end) is Short);
        assert(command_at(bytes, at) is Short);
        let next = apply(state, gen, command_at(all, at)->Done_0, at, end);
        assert(replay_log(gen, all, end, next) == next);
        assert(replay_log(gen, bytes, at, state) == state);
    } else {
        let end = command_at(bytes, at)->Done_1;
        lemma_command_at_advances(bytes, at);
        assert(all.subrange(at, end) =~= bytes.subrange(at, end));
        lemma_command_at_local(bytes, at, all, at);
        let next = apply(state, gen, command_at(bytes, at)->Done_0, at, end);
        lemma_replay_log_append(gen, bytes, more, end, next);
        assert(replay_log(gen, bytes, at, state) == replay_log(gen, bytes, end, next));
        assert(replay_log(gen, all, at, state) == replay_log(gen, all, end, next));
    }
}

/// Replaying a directory whose last log is complete, with one more command
/// behind that log, is replaying the directory and then applying the
/// command.
pub proof fn lemma_replay_dir_append(logs: Seq<LogView>, more: Seq<u8>)
    requires
        logs.len() > 0,
        log_complete(logs.last().data, 0),
        command_at(logs.last().data + more, logs.last().data.len() as int) is Done,
        command_at(logs.last().data + more, logs.last().data.len() as int)->Done_1
            == logs.last().data.len() + more.len(),
    ensures
        log_complete(append_last(logs, more).last().data, 0),
        replay_dir(append_last(logs, more)) == apply(
            replay_dir(logs),
            logs.last().gen,
            command_at(logs.last().data + more, logs.last().data.len() as int)->Done_0,
            logs.last().data.len() as int,
            (logs.last().data.len() + more.len()) as int,
        ),
{
    let after = append_last(logs, more);
    assert(after.drop_last() =~= logs.drop_last());
    lemma_replay_log_append(
        logs.last().gen,
        logs.last().data,
        more,
        0,
        replay_dir(logs.drop_last()),
    );
}

/// A new log without bytes changes nothing in the replay of a directory.
pub proof fn lemma_replay_dir_push_empty(logs: Seq<LogView>, gen: u64)
    ensures
        replay_dir(logs.push(LogView { gen, data: Seq::empty() })) == replay_dir(logs),
        log_complete(Seq::<u8>::empty(), 0),
{
    let after = logs.push(LogView { gen, data: Seq::empty() });
    assert(after.drop_last() =~= logs);
}

/// The replay of a directory of two logs of which the second is empty is the
/// replay of the first log.
pub proof fn lemma_replay_dir_pair(first: LogView, second_gen: u64)
    ensures
        replay_dir(seq![first, LogView { gen: second_gen, data: Seq::empty() }]) == replay_log(
            first.gen,
            first.data,
            0,
            replay_start(),
        ),
{
    let one = seq![first];
    assert(one.drop_last() =~= Seq::<LogView>::empty());
    assert(replay_dir(one.drop_last()) == replay_start());
    assert(one.last() == first);
    lemma_replay_dir_push_empty(one, second_gen);
    assert(one.push(LogView { gen: second_gen, data: Seq::empty() }) =~= seq![
        first,
        LogView { gen: second_gen, data: Seq::empty() },
    ]);
}

/// An entry that leads to its command in one directory does so in another
/// directory that holds the same log, be it with more bytes behind.
pub proof fn lemma_entry_ok_transfer(
    before: Seq<LogView>,
    after: Seq<LogView>,
    place: int,
    key: Seq<char>,
    entry: CommandPos,
)
    requires
        ascending(after),
        entry_ok(before, key, entry),
        0 <= place < after.len(),
        after[place].gen == entry.gen,
        data_of(before, entry.gen).is_prefix_of(after[place].data),
    ensures
        entry_ok(after, key, entry),
        entry_value(after, entry) == entry_value(before, entry),
{
    lemma_place_of(after, place);
    let b1 = data_of(before, entry.gen);
    let b2 = after[place].data;
    let at = entry.pos as int;
    lemma_command_at_advances(b1, at);
    let end = command_at(b1, at)->Done_1;
    assert(b2.subrange(at, end) =~= b1.subrange(at, end));
    lemma_command_at_local(b1, at, b2, at);
}

/// Every entry that leads to its command still does so after bytes were
/// appended to the last log.
pub proof fn lemma_index_ok_append(
    logs: Seq<LogView>,
    more: Seq<u8>,
    index: Map<Seq<char>, CommandPos>,
)
    requires
        ascending(logs),
        logs.len() > 0,
        index_ok(logs, index),
    ensures
        ascending(append_last(logs, more)),
        index_ok(append_last(logs, more), index),
        forall|key: Seq<char>| #[trigger]
            index.contains_key(key) ==> entry_value(append_last(logs, more), index[key])
                == entry_value(logs, index[key]),
{
    let after = append_last(logs, more);
    assert forall|i: int, j: int| 0 <= i < j < after.len() implies after[i].gen
        < after[j].gen by {
        assert(logs[i].gen < logs[j].gen);
    }
    assert forall|key: Seq<char>| #[trigger] index.contains_key(key) implies entry_ok(
        after,
        key,
        index[key],
    ) && entry_value(after, index[key]) == entry_value(logs, index[key]) by {
        let place = place_of(logs, index[key].gen);
        lemma_entry_ok_transfer(logs, after, place, key, index[key]);
    }
}

/// Every entry that leads to its command still does so after a log was
/// added behind the others.
pub proof fn lemma_index_ok_push(
    logs: Seq<LogView>,
    log: LogView,
    index: Map<Seq<char>, CommandPos>,
)
    requires
        ascending(logs.push(log)),
        index_ok(logs, index),
    ensures
        index_ok(logs.push(log), index),
        forall|key: Seq<char>| #[trigger]
            index.contains_key(key) ==> entry_value(logs.push(log), index[key]) == entry_value(
                logs,
                index[key],
            ),
{
    let after = logs.push(log);
    assert forall|key: Seq<char>| #[trigger] index.contains_key(key) implies entry_ok(
        after,
        key,
        index[key],
    ) && entry_value(after, index[key]) == entry_value(logs, index[key]) by {
        let place = place_of(logs, index[key].gen);
        lemma_entry_ok_transfer(logs, after, place, key, index[key]);
    }
}

/// What deleting the logs below a generation leaves: the logs from some
/// place on, before which every generation is below and at which the
/// generation is not.
pub proof fn lemma_drop_below(logs: Seq<LogView>, gen: u64) -> (from: int)
    requires
        ascending(logs),
    ensures
        0 <= from <= logs.len(),
        drop_below(logs, gen) == logs.subrange(from, logs.len() as int),
        forall|i: int| 0 <= i < from ==> (#[trigger] logs[i]).gen < gen,
        forall|i: int| from <= i < logs.len() ==> (#[trigger] logs[i]).gen >= gen,
    decreases logs.len(),
{
    if logs.len() == 0 || logs[0].gen >= gen {
        assert(logs.subrange(0, logs.len() as int) =~= logs);
        assert forall|i: int| 0 <= i < logs.len() implies (#[trigger] logs[i]).gen >= gen by {
            if i > 0 {
                assert(logs[0].gen < logs[i].gen);
            }
        }
        0
    } else {
        let rest = logs.subrange(1, logs.len() as int);
        assert forall|i: int, j: int| 0 <= i < j < rest.len() implies rest[i].gen
            < rest[j].gen by {
            assert(logs[i + 1].gen < logs[j + 1].gen);
        }
        let from = lemma_drop_below(rest, gen);
        assert(rest.subrange(from, rest.len() as int) =~= logs.subrange(
            from + 1,
            logs.len() as int,
        ));
        assert forall|i: int| 0 <= i < from + 1 implies (#[trigger] logs[i]).gen < gen by {
            if i > 0 {
                assert(rest[i - 1].gen < gen);
            }
        }
        assert forall|i: int| from + 1 <= i < logs.len() implies (#[trigger] logs[i]).gen
            >= gen by {
            assert(rest[i - 1].gen >= gen);
        }
        from + 1
    }
}

/// Whether no log of a directory is longer than an offset can say.
pub open spec fn bounded(logs: Seq<LogView>) -> bool {
    forall|i: int| 0 <= i < logs.len() ==> (#[trigger] logs[i]).data.len() <= u64::MAX
}

/// The dead bytes that a replay starts with are carried through it
/// unchanged.
pub proof fn lemma_replay_log_carries(
    gen: u64,
    bytes: Seq<u8>,
    at: int,
    state: Replay,
    extra: nat,
)
    requires
        0 <= at,
    ensures
        replay_log(
            gen,
            bytes,
            at,
            Replay { index: state.index, uncompacted: state.uncompacted + extra },
        ) == (Replay {
            index: replay_log(gen, bytes, at, state).index,
            uncompacted: replay_log(gen, bytes, at, state).uncompacted + extra,
        }),
    decreases bytes.len() - at,
{
    let more = Replay { index: state.index, uncompacted: state.uncompacted + extra };
    match command_at(bytes, at) {
        Parse::Done(command, end) => {
            if at < end {
                lemma_command_at_advances(bytes, at);
                let next = apply(state, gen, command, at, end);
                let next_more = apply(more, gen, command, at, end);
                assert(next_more == Replay {
                    index: next.index,
                    uncompacted: next.uncompacted + extra,
                });
                lemma_replay_log_carries(gen, bytes, end, next, extra);
            }
        },
        _ => {},
    }
}

/// The entries that replaying a log of the directory adds lead to their
/// commands, as the entries did that were there before.
pub proof fn lemma_replay_log_index_ok(logs: Seq<LogView>, place: int, at: int, state: Replay)
    requires
        ascending(logs),
        bounded(logs),
        0 <= place < logs.len(),
        0 <= at,
        index_ok(logs, state.index),
    ensures
        index_ok(logs, replay_log(logs[place].gen, logs[place].data, at, state).index),
    decreases logs[place].data.len() - at,
{
    let gen = logs[place].gen;
    let bytes = logs[place].data;
    match command_at(bytes, at) {
        Parse::Done(command, end) => {
            if at < end {
                lemma_command_at_advances(bytes, at);
                lemma_place_of(logs, place);
                let next = apply(state, gen, command, at, end);
                assert(index_ok(logs, next.index)) by {
                    assert forall|key: Seq<char>| #[trigger]
                        next.index.contains_key(key) implies entry_ok(
                        logs,
                        key,
                        next.index[key],
                    ) by {
                        if command is Put && key == command.key() {
                        } else {
                            assert(state.index.contains_key(key));
                        }
                    }
                }
                lemma_replay_log_index_ok(logs, place, end, next);
            }
        },
        _ => {},
    }
}

/// Every entry of the index that replaying a directory gives leads to its
/// command.
pub proof fn lemma_replay_dir_index_ok(logs: Seq<LogView>)
    requires
        ascending(logs),
        bounded(logs),
    ensures
        index_ok(logs, replay_dir(logs).index),
    decreases logs.len(),
{
    if logs.len() > 0 {
        let front = logs.drop_last();
        lemma_replay_dir_index_ok(front);
        assert(logs =~= front.push(logs.last()));
        lemma_index_ok_push(front, logs.last(), replay_dir(front).index);
        lemma_replay_log_index_ok(logs, logs.len() - 1, 0, replay_dir(front));
    }
}

/// Whether offset `pos` is where a command starts when the log is read
/// command by command from offset `at` on.
pub open spec fn boundary(bytes: Seq<u8>, at: int, pos: int) -> bool
    decreases bytes.len() - at,
{
    if pos == at {
        true
    } else if pos < at {
        false
    } else {
        match command_at(bytes, at) {
            Parse::Done(command, end) => at < end && boundary(bytes, end, pos),
            _ => false,
        }
    }
}

/// Whether every entry of `index` stands where a command starts when its
/// log is read from the beginning.
pub open spec fn index_on_boundaries(
    logs: Seq<LogView>,
    index: Map<Seq<char>, CommandPos>,
) -> bool {
    forall|key: Seq<char>| #[trigger]
        index.contains_key(key) ==> has_gen(logs, index[key].gen) && boundary(
            data_of(logs, index[key].gen),
            0,
            index[key].pos as int,
        )
}

/// A boundary that is reached from `from` is reached from every boundary
/// between `from` and itself.
pub proof fn lemma_boundary_chain(bytes: Seq<u8>, from: int, first: int, second: int)
    requires
        0 <= from,
        boundary(bytes, from, first),
        boundary(bytes, from, second),
        first <= second,
    ensures
        boundary(bytes, first, second),
    decreases bytes.len() - from,
{
    if first != from {
        lemma_command_at_advances(bytes, from);
        lemma_boundary_chain(bytes, command_at(bytes, from)->Done_1, first, second);
    }
}

/// The offset behind `at` is a boundary where `at` is one and a command
/// starts there.
pub proof fn lemma_boundary_step(bytes: Seq<u8>, from: int, at: int)
    requires
        0 <= from,
        boundary(bytes, from, at),
        command_at(bytes, at) is Done,
    ensures
        boundary(bytes, from, command_at(bytes, at)->Done_1),
    decreases bytes.len() - from,
{
    lemma_command_at_advances(bytes, at);
    let end = command_at(bytes, at)->Done_1;
    if from == at {
        assert(boundary(bytes, end, end));
    } else {
        lemma_command_at_advances(bytes, from);
        lemma_boundary_step(bytes, command_at(bytes, from)->Done_1, at);
    }
}

/// The entries that replaying a log of the directory adds stand on
/// boundaries of that log, as the entries did that were there before.
pub proof fn lemma_replay_log_on_boundaries(
    logs: Seq<LogView>,
    place: int,
    at: int,
    state: Replay,
)
    requires
        ascending(logs),
        bounded(logs),
        0 <= place < logs.len(),
        0 <= at,
        boundary(logs[place].data, 0, at),
        index_on_boundaries(logs, state.index),
    ensures
        index_on_boundaries(
            logs,
            replay_log(logs[place].gen, logs[place].data, at, state).index,
        ),
    decreases logs[place].data.len() - at,
{
    let gen = logs[place].gen;
    let bytes = logs[place].data;
    match command_at(bytes, at) {
        Parse::Done(command, end) => {
            if at < end {
                lemma_command_at_advances(bytes, at);
                lemma_place_of(logs, place);
                lemma_boundary_step(bytes, 0, at);
                let next = apply(state, gen, command, at, end);
                assert(index_on_boundaries(logs, next.index)) by {
                    assert forall|key: Seq<char>| #[trigger]
                        next.index.contains_key(key) implies has_gen(logs, next.index[key].gen)
                        && boundary(
                        data_of(logs, next.index[key].gen),
                        0,
                        next.index[key].pos as int,
                    ) by {
                        if command is Put && key == command.key() {
                        } else {
                            assert(state.index.contains_key(key));
                        }
                    }
                }
                lemma_replay_log_on_boundaries(logs, place, end, next);
            }
        },
        _ => {},
    }
}

/// Every entry of the index that replaying a directory gives stands on a
/// boundary of its log.
pub proof fn lemma_replay_dir_on_boundaries(logs: Seq<LogView>)
    requires
        ascending(logs),
        bounded(logs),
    ensures
        index_on_boundaries(logs, replay_dir(logs).index),
    decreases logs.len(),
{
    if logs.len() > 0 {
        let front = logs.drop_last();
        let index = replay_dir(front).index;
        lemma_replay_dir_on_boundaries(front);
        assert(logs =~= front.push(logs.last()));
        assert forall|key: Seq<char>| #[trigger] index.contains_key(key) implies has_gen(
            logs,
            index[key].gen,
        ) && boundary(data_of(logs, index[key].gen), 0, index[key].pos as int) by {
            let old_place = place_of(front, index[key].gen);
            assert(logs[old_place] == front[old_place]);
            lemma_place_of(logs, old_place);
        }
        lemma_replay_log_on_boundaries(logs, logs.len() - 1, 0, replay_dir(front));
    }
}

/// Two entries of one log that stand on boundaries and lead to commands
/// share no byte, unless they are one entry.
pub proof fn lemma_entries_apart(bytes: Seq<u8>, first: CommandPos, second: CommandPos)
    requires
        boundary(bytes, 0, first.pos as int),
        boundary(bytes, 0, second.pos as int),
        command_at(bytes, first.pos as int) is Done,
        command_at(bytes, first.pos as int)->Done_1 == first.pos + first.len,
        first.pos < second.pos,
    ensures
        first.pos + first.len <= second.pos,
{
    lemma_boundary_chain(bytes, 0, first.pos as int, second.pos as int);
    lemma_command_at_advances(bytes, first.pos as int);
    lemma_boundary_from(bytes, first.pos + first.len, second.pos as int);
}

/// A boundary does not lie before the offset from which it is reached.
pub proof fn lemma_boundary_from(bytes: Seq<u8>, from: int, pos: int)
    requires
        boundary(bytes, from, pos),
    ensures
        from <= pos,
{
}

/// Whether every log of a directory is made of whole commands.
pub open spec fn dir_complete(logs: Seq<LogView>) -> bool {
    forall|i: int| 0 <= i < logs.len() ==> log_complete((#[trigger] logs[i]).data, 0)
}

/// Whether no entry of `index` has the length zero.
pub open spec fn index_positive(index: Map<Seq<char>, CommandPos>) -> bool {
    forall|key: Seq<char>| #[trigger] index.contains_key(key) ==> index[key].len > 0
}

/// Whether the byte at offset `offset` of the log of generation `gen` lies
/// in the command of an entry of `index`.
pub open spec fn live_byte(index: Map<Seq<char>, CommandPos>, gen: u64, offset: int) -> bool {
    exists|key: Seq<char>| #[trigger]
        index.contains_key(key) && index[key].gen == gen && index[key].pos <= offset
            < index[key].pos + index[key].len
}

/// A replay never lowers the count of dead bytes.
pub proof fn lemma_replay_log_counts_up(gen: u64, bytes: Seq<u8>, at: int, state: Replay)
    requires
        0 <= at,
    ensures
        replay_log(gen, bytes, at, state).uncompacted >= state.uncompacted,
    decreases bytes.len() - at,
{
    match command_at(bytes, at) {
        Parse::Done(command, end) => {
            if at < end {
                lemma_replay_log_counts_up(gen, bytes, end, apply(state, gen, command, at, end));
            }
        },
        _ => {},
    }
}

/// A replay of whole commands that counts no dead byte keeps every entry
/// that it starts with and adds, for every byte that it reads, an entry in
/// whose command the byte lies.
pub proof fn lemma_replay_log_live(gen: u64, bytes: Seq<u8>, at: int, state: Replay)
    requires
        0 <= at <= bytes.len() <= u64::MAX,
        log_complete(bytes, at),
        index_positive(state.index),
        replay_log(gen, bytes, at, state).uncompacted == state.uncompacted,
    ensures
        index_positive(replay_log(gen, bytes, at, state).index),
        forall|key: Seq<char>| #[trigger]
            state.index.contains_key(key) ==> replay_log(
                gen,
                bytes,
                at,
                state,
            ).index.contains_pair(key, state.index[key]),
        forall|offset: int|
            at <= offset < bytes.len() ==> live_byte(
                replay_log(gen, bytes, at, state).index,
                gen,
                offset,
            ),
    decreases bytes.len() - at,
{
    if at < bytes.len() {
        lemma_command_at_advances(bytes, at);
        let command = command_at(bytes, at)->Done_0;
        let end = command_at(bytes, at)->Done_1;
        let next = apply(state, gen, command, at, end);
        let result = replay_log(gen, bytes, at, state);
        lemma_replay_log_counts_up(gen, bytes, end, next);
        assert(result == replay_log(gen, bytes, end, next));
        assert(command is Put);
        let entry = CommandPos { gen, pos: at as u64, len: (end - at) as u64 };
        assert(!state.index.contains_key(command.key()));
        assert(next.index == state.index.insert(command.key(), entry));
        lemma_replay_log_live(gen, bytes, end, next);
        assert forall|offset: int| at <= offset < bytes.len() implies live_byte(
            result.index,
            gen,
            offset,
        ) by {
            if offset < end {
                assert(next.index.contains_key(command.key()));
                assert(result.index.contains_pair(command.key(), entry));
            }
        }
        assert forall|key: Seq<char>| #[trigger]
            state.index.contains_key(key) implies result.index.contains_pair(
            key,
            state.index[key],
        ) by {
            assert(next.index.contains_key(key));
        }
    }
}

/// A replay of a directory of whole commands that counts no dead byte gives
/// an index in which every byte of every log is live.
pub proof fn lemma_replay_dir_live(logs: Seq<LogView>)
    requires
        ascending(logs),
        bounded(logs),
        dir_complete(logs),
        replay_dir(logs).uncompacted == 0,
    ensures
        index_positive(replay_dir(logs).index),
        forall|place: int, offset: int|
            0 <= place < logs.len() && 0 <= offset < logs[place].data.len()
                ==> #[trigger] live_byte(replay_dir(logs).index, logs[place].gen, offset),
    decreases logs.len(),
{
    if logs.len() > 0 {
        let front = logs.drop_last();
        let last = logs.last();
        let before = replay_dir(front);
        let result = replay_dir(logs);
        lemma_replay_log_counts_up(last.gen, last.data, 0, before);
        lemma_replay_dir_live(front);
        lemma_replay_log_live(last.gen, last.data, 0, before);
        assert forall|place: int, offset: int|
            0 <= place < logs.len() && 0 <= offset < logs[place].data.len()
            implies #[trigger] live_byte(result.index, logs[place].gen, offset) by {
            if place < logs.len() - 1 {
                assert(logs[place] == front[place]);
                assert(live_byte(before.index, front[place].gen, offset));
                let key = choose|key: Seq<char>| #[trigger]
                    before.index.contains_key(key) && before.index[key].gen == front[place].gen
                        && before.index[key].pos <= offset < before.index[key].pos
                        + before.index[key].len;
                assert(result.index.contains_pair(key, before.index[key]));
                assert(result.index.contains_key(key));
            }
        }
    }
}

/// A log that is made of whole commands is sound.
pub proof fn lemma_complete_sound(bytes: Seq<u8>, at: int)
    requires
        0 <= at <= bytes.len(),
        log_complete(bytes, at),
    ensures
        log_sound(bytes, at),
    decreases bytes.len() - at,
{
    if at < bytes.len() {
        lemma_command_at_advances(bytes, at);
        lemma_complete_sound(bytes, command_at(bytes, at)->Done_1);
    } else {
        lemma_command_at_end(bytes);
    }
}

/// A sound directory stays sound when its last log is replaced by a log
/// of whole commands.
pub proof fn lemma_dir_sound_last(logs: Seq<LogView>, after: Seq<LogView>)
    requires
        dir_sound(logs),
        after.len() > 0,
        after.len() <= logs.len() + 1,
        forall|i: int| 0 <= i < after.len() - 1 ==> after[i] == logs[i],
        log_complete(after.last().data, 0),
    ensures
        dir_sound(after),
{
    lemma_complete_sound(after.last().data, 0);
    assert forall|i: int| 0 <= i < after.len() implies log_sound(
        (#[trigger] after[i]).data,
        0,
    ) by {
        if i < after.len() - 1 {
            assert(log_sound(logs[i].data, 0));
        }
    }
}

/// What looking a key up comes to.
pub enum Lookup {
    /// The index holds no entry for the key.
    Absent,
    /// The entry names a generation of which there is no log.
    NoLog,
    /// The log ends before the entry's bytes do.
    Cut,
    /// The entry's bytes are not one whole command.
    Garbled,
    /// The entry's bytes are a command that removes a key.
    Removed,
    /// The entry's bytes are a command that sets a key to this value.
    Value(Seq<char>),
}

/// Looks `key` up: finds its entry in the index, takes the entry's bytes
/// from the log of the entry's generation, and decodes them.
pub open spec fn lookup(
    logs: Seq<LogView>,
    index: Map<Seq<char>, CommandPos>,
    key: Seq<char>,
) -> Lookup {
    if !index.contains_key(key) {
        Lookup::Absent
    } else if !has_gen(logs, index[key].gen) {
        Lookup::NoLog
    } else if index[key].pos + index[key].len > data_of(logs, index[key].gen).len() {
        Lookup::Cut
    } else {
        chunk_meaning(
            data_of(logs, index[key].gen).subrange(
                index[key].pos as int,
                index[key].pos + index[key].len,
            ),
        )
    }
}

/// What the bytes of an entry say, taken by themselves.
pub open spec fn chunk_meaning(chunk: Seq<u8>) -> Lookup {
    match command_at(chunk, 0) {
        Parse::Done(command, end) => if end != chunk.len() {
            Lookup::Garbled
        } else {
            match command {
                CommandView::Put { key, value } => Lookup::Value(value),
                CommandView::Remove { key } => Lookup::Removed,
            }
        },
        _ => Lookup::Garbled,
    }
}

/// Whether `reply` is the answer that is owed for the outcome `outcome` of a
/// lookup: the value where there is one, nothing where the key is absent or
/// removed, and otherwise the error that names what is wrong.
pub open spec fn answers(reply: Result<Option<String>, KvError>, outcome: Lookup) -> bool {
    match outcome {
        Lookup::Absent => reply matches Ok(None),
        Lookup::NoLog => reply matches Err(KvError::ReaderNotFound),
        Lookup::Cut => reply matches Err(KvError::Io(_)),
        Lookup::Garbled => reply matches Err(KvError::Serialize(_)),
        Lookup::Removed => reply matches Ok(None),
        Lookup::Value(value) => reply matches Ok(Some(text)) && text@ == value,
    }
}

/// An entry that leads to its command is looked up to the value of that
/// command.
pub proof fn lemma_lookup_ok(
    logs: Seq<LogView>,
    index: Map<Seq<char>, CommandPos>,
    key: Seq<char>,
)
    requires
        index.contains_key(key),
        entry_ok(logs, key, index[key]),
    ensures
        lookup(logs, index, key) == Lookup::Value(entry_value(logs, index[key])),
{
    let entry = index[key];
    let data = data_of(logs, entry.gen);
    lemma_command_at_advances(data, entry.pos as int);
    let chunk = data.subrange(entry.pos as int, entry.pos + entry.len);
    assert(chunk.subrange(0, entry.len as int) =~= chunk);
    lemma_command_at_local(data, entry.pos as int, chunk, 0);
}

} // verus!
