//! Counting bytes: the bytes of the logs are the bytes of the commands that
//! the index leads to and the bytes that have died.

use crate::command::{command_at, lemma_command_at_advances, lemma_command_at_end, CommandView};
use crate::index::CommandPos;
use crate::logs::LogView;
use crate::replay::{
    apply, bounded, dir_complete, displaced, log_complete, replay_dir, replay_log, replay_start,
    Replay,
};
use vstd::prelude::*;

verus! {

/// The bytes of all the logs of a directory.
pub open spec fn total_bytes(logs: Seq<LogView>) -> nat
    decreases logs.len(),
{
    if logs.len() == 0 {
        0
    } else {
        total_bytes(logs.drop_last()) + logs.last().data.len()
    }
}

/// The bytes of the commands that the entries of an index lead to: the sum
/// of the lengths of all entries.
pub open spec fn live_bytes(index: Map<Seq<char>, CommandPos>) -> nat
    decreases index.dom().len(),
    when index.dom().finite()
{
    if index.dom().len() == 0 {
        0
    } else {
        let key = index.dom().choose();
        index[key].len as nat + live_bytes(index.remove(key))
    }
}

/// The sum of the lengths of all entries is the length of one entry and the
/// sum over the others, whichever entry is taken out.
pub proof fn lemma_live_bytes_remove(index: Map<Seq<char>, CommandPos>, key: Seq<char>)
    requires
        index.dom().finite(),
        index.contains_key(key),
    ensures
        live_bytes(index) == index[key].len + live_bytes(index.remove(key)),
    decreases index.dom().len(),
{
    let chosen = index.dom().choose();
    if chosen != key {
        let without_chosen = index.remove(chosen);
        let without_key = index.remove(key);
        lemma_live_bytes_remove(without_chosen, key);
        lemma_live_bytes_remove(without_key, chosen);
        assert(without_chosen.remove(key) =~= without_key.remove(chosen));
    }
}

/// A new entry adds its length to the sum; an entry that takes the place of
/// another adds its length and takes the other's away.
pub proof fn lemma_live_bytes_insert(
    index: Map<Seq<char>, CommandPos>,
    key: Seq<char>,
    entry: CommandPos,
)
    requires
        index.dom().finite(),
    ensures
        index.insert(key, entry).dom().finite(),
        live_bytes(index.insert(key, entry)) + displaced(index, key) == live_bytes(index)
            + entry.len,
{
    let after = index.insert(key, entry);
    lemma_live_bytes_remove(after, key);
    if index.contains_key(key) {
        lemma_live_bytes_remove(index, key);
        assert(after.remove(key) =~= index.remove(key));
    } else {
        assert(after.remove(key) =~= index);
    }
}

/// An entry that is taken out takes its length away from the sum.
pub proof fn lemma_live_bytes_drop(index: Map<Seq<char>, CommandPos>, key: Seq<char>)
    requires
        index.dom().finite(),
    ensures
        index.remove(key).dom().finite(),
        live_bytes(index.remove(key)) + displaced(index, key) == live_bytes(index),
{
    if index.contains_key(key) {
        lemma_live_bytes_remove(index, key);
    } else {
        assert(index.remove(key) =~= index);
    }
}

/// Two indexes with the same keys and, key by key, entries of the same
/// length lead to the same number of bytes.
pub proof fn lemma_live_bytes_same(
    first: Map<Seq<char>, CommandPos>,
    second: Map<Seq<char>, CommandPos>,
)
    requires
        first.dom().finite(),
        first.dom() == second.dom(),
        forall|key: Seq<char>| #[trigger]
            first.contains_key(key) ==> first[key].len == second[key].len,
    ensures
        live_bytes(first) == live_bytes(second),
    decreases first.dom().len(),
{
    if first.dom().len() > 0 {
        let key = first.dom().choose();
        assert(first.contains_key(key));
        assert(second.dom().contains(key));
        lemma_live_bytes_remove(first, key);
        lemma_live_bytes_remove(second, key);
        assert(first.remove(key).dom() =~= second.remove(key).dom());
        assert forall|other: Seq<char>| #[trigger]
            first.remove(key).contains_key(other) implies first.remove(key)[other].len
            == second.remove(key)[other].len by {
            assert(first.contains_key(other));
        }
        lemma_live_bytes_same(first.remove(key), second.remove(key));
    }
}

/// Replaying whole commands accounts for every byte that it reads: the
/// bytes read are live or dead afterwards.
pub proof fn lemma_replay_log_accounts(gen: u64, bytes: Seq<u8>, at: int, state: Replay)
    requires
        0 <= at <= bytes.len() <= u64::MAX,
        log_complete(bytes, at),
        state.index.dom().finite(),
    ensures
        replay_log(gen, bytes, at, state).index.dom().finite(),
        live_bytes(replay_log(gen, bytes, at, state).index) + replay_log(
            gen,
            bytes,
            at,
            state,
        ).uncompacted == live_bytes(state.index) + state.uncompacted + (bytes.len() - at),
    decreases bytes.len() - at,
{
    if at < bytes.len() {
        lemma_command_at_advances(bytes, at);
        let command = command_at(bytes, at)->Done_0;
        let end = command_at(bytes, at)->Done_1;
        let next = apply(state, gen, command, at, end);
        match command {
            CommandView::Put { key, value } => {
                lemma_live_bytes_insert(
                    state.index,
                    key,
                    CommandPos { gen, pos: at as u64, len: (end - at) as u64 },
                );
            },
            CommandView::Remove { key } => {
                lemma_live_bytes_drop(state.index, key);
            },
        }
        lemma_replay_log_accounts(gen, bytes, end, next);
    } else {
        lemma_command_at_end(bytes);
    }
}

/// Replaying a directory of whole commands accounts for every byte of its
/// logs.
pub proof fn lemma_replay_dir_accounts(logs: Seq<LogView>)
    requires
        bounded(logs),
        dir_complete(logs),
    ensures
        replay_dir(logs).index.dom().finite(),
        live_bytes(replay_dir(logs).index) + replay_dir(logs).uncompacted == total_bytes(logs),
    decreases logs.len(),
{
    if logs.len() > 0 {
        let front = logs.drop_last();
        lemma_replay_dir_accounts(front);
        lemma_replay_log_accounts(logs.last().gen, logs.last().data, 0, replay_dir(front));
    } else {
        assert(replay_start().index.dom() =~= Set::<Seq<char>>::empty());
    }
}

} // verus!
