//! What holds of the store across its operations.
//!
//! The operations of the writer say how the map from keys to values
//! changes; the reader says what looking a key up in logs and index comes
//! to. The laws below tie the two together.

use crate::accounts::{
    lemma_live_bytes_same, lemma_replay_dir_accounts, live_bytes, total_bytes,
};
use crate::command::{lemma_command_at_advances, lemma_command_at_wire, put};
use crate::engine::{first_gen, KvWriter, COMPACTION_LIMIT};
use crate::logs::{append_last, data_of, has_gen, LogView};
use crate::replay::{
    dir_complete, dir_sound, lemma_entries_apart, lemma_index_ok_push, lemma_lookup_ok,
    lemma_replay_dir_live, lemma_replay_dir_on_boundaries, live_byte, log_complete, lookup,
    replay_dir, saturate, store_view, Lookup,
};
use vstd::prelude::*;

verus! {

/// Looking a key up in the logs and the index of a well-formed writer gives
/// the value that the store holds for the key, and finds no entry for a key
/// that the store does not hold.
pub proof fn law_lookup_reads_the_store(writer: KvWriter, key: Seq<char>)
    requires
        writer.wf(),
    ensures
        lookup(writer.logs(), writer.entries(), key) == if writer@.contains_key(key) {
            Lookup::Value(writer@[key])
        } else {
            Lookup::Absent
        },
{
    writer.lemma_wf();
    if writer.entries().contains_key(key) {
        lemma_lookup_ok(writer.logs(), writer.entries(), key);
    }
}

/// Read your writes: in the store that setting `key` to `value` leaves,
/// looking `key` up gives `value`.
pub proof fn law_read_your_writes(
    before: KvWriter,
    after: KvWriter,
    key: Seq<char>,
    value: Seq<char>,
)
    requires
        before.wf(),
        after.wf(),
        after@ == before@.insert(key, value),
    ensures
        lookup(after.logs(), after.entries(), key) == Lookup::Value(value),
{
    law_lookup_reads_the_store(after, key);
}

/// Overwrite: after `key` was set to one value and then to another,
/// looking `key` up gives the second value.
pub proof fn law_overwrite(
    before: KvWriter,
    between: KvWriter,
    after: KvWriter,
    key: Seq<char>,
    first: Seq<char>,
    second: Seq<char>,
)
    requires
        before.wf(),
        between.wf(),
        after.wf(),
        between@ == before@.insert(key, first),
        after@ == between@.insert(key, second),
    ensures
        lookup(after.logs(), after.entries(), key) == Lookup::Value(second),
{
    law_lookup_reads_the_store(after, key);
}

/// Remove: after `key` was set and then removed, looking `key` up finds
/// nothing.
pub proof fn law_remove(
    before: KvWriter,
    between: KvWriter,
    after: KvWriter,
    key: Seq<char>,
    value: Seq<char>,
)
    requires
        before.wf(),
        between.wf(),
        after.wf(),
        between@ == before@.insert(key, value),
        after@ == between@.remove(key),
    ensures
        lookup(after.logs(), after.entries(), key) == Lookup::Absent,
{
    law_lookup_reads_the_store(after, key);
}

/// A write to one key leaves what is looked up for every other key.
pub proof fn law_other_keys_stay(
    before: KvWriter,
    after: KvWriter,
    key: Seq<char>,
    value: Seq<char>,
    other: Seq<char>,
)
    requires
        before.wf(),
        after.wf(),
        after@ == before@.insert(key, value) || after@ == before@.remove(key),
        other != key,
    ensures
        lookup(after.logs(), after.entries(), other) == lookup(
            before.logs(),
            before.entries(),
            other,
        ),
{
    law_lookup_reads_the_store(before, other);
    law_lookup_reads_the_store(after, other);
}

/// Persistence: the directory of a well-formed writer can be opened again
/// while a generation is left above its current one, and replaying it
/// gives the store, the index and the count of dead bytes that the writer
/// had.
pub proof fn law_persistence(writer: KvWriter)
    requires
        writer.wf(),
    ensures
        dir_sound(writer.logs()),
        first_gen(writer.logs()) == writer.spec_curr_gen() + 1,
        replay_dir(writer.logs()).index == writer.entries(),
        store_view(writer.logs(), replay_dir(writer.logs()).index) == writer@,
        saturate(replay_dir(writer.logs()).uncompacted) == writer.spec_uncompacted(),
{
    writer.lemma_wf();
}

/// Persistence, seen from the store that was opened again: a writer whose
/// logs are those of another writer with one empty log behind them, and
/// whose index is the replay of the other's logs, holds the same store.
pub proof fn law_reopened_store(writer: KvWriter, reopened: KvWriter)
    requires
        writer.wf(),
        reopened.wf(),
        reopened.logs() == writer.logs().push(
            LogView { gen: first_gen(writer.logs()) as u64, data: Seq::empty() },
        ),
        reopened.entries() == replay_dir(writer.logs()).index,
    ensures
        reopened@ == writer@,
        forall|key: Seq<char>|
            lookup(reopened.logs(), reopened.entries(), key) == lookup(
                writer.logs(),
                writer.entries(),
                key,
            ),
{
    writer.lemma_wf();
    reopened.lemma_wf();
    lemma_index_ok_push(
        writer.logs(),
        LogView { gen: first_gen(writer.logs()) as u64, data: Seq::empty() },
        writer.entries(),
    );
    assert(reopened@ =~= writer@);
    assert forall|key: Seq<char>|
        lookup(reopened.logs(), reopened.entries(), key) == lookup(
            writer.logs(),
            writer.entries(),
            key,
        ) by {
        law_lookup_reads_the_store(writer, key);
        law_lookup_reads_the_store(reopened, key);
    }
}

/// Compaction keeps the meaning of the store: where two well-formed
/// writers hold the same store, as a writer does before and after a
/// compaction, every key is looked up to the same outcome in both.
pub proof fn law_compaction_keeps_lookups(before: KvWriter, after: KvWriter, key: Seq<char>)
    requires
        before.wf(),
        after.wf(),
        after@ == before@,
    ensures
        lookup(after.logs(), after.entries(), key) == lookup(
            before.logs(),
            before.entries(),
            key,
        ),
{
    law_lookup_reads_the_store(before, key);
    law_lookup_reads_the_store(after, key);
}

/// The logs that a compaction leaves hold live commands only: where the
/// counter of a well-formed writer is at zero and its logs are made of
/// whole commands, replaying the logs counts no dead byte, and every byte
/// of every log lies in the command of an entry of the index.
pub proof fn law_compacted_logs_are_live(writer: KvWriter, place: int, offset: int)
    requires
        writer.wf(),
        writer.spec_uncompacted() == 0,
        dir_complete(writer.logs()),
        0 <= place < writer.logs().len(),
        0 <= offset < writer.logs()[place].data.len(),
    ensures
        replay_dir(writer.logs()).uncompacted == 0,
        live_byte(writer.entries(), writer.logs()[place].gen, offset),
{
    writer.lemma_wf();
    lemma_replay_dir_live(writer.logs());
}

/// No log lies below the safe point: every generation of the directory of
/// a well-formed writer, and so every generation that an entry of its index
/// names, is at the safe point or above.
pub proof fn law_safe_point_bounds_logs(writer: KvWriter, place: int)
    requires
        writer.wf(),
        0 <= place < writer.logs().len(),
    ensures
        writer.spec_safe_point() <= writer.logs()[place].gen,
{
    writer.lemma_wf();
    if place > 0 {
        assert(writer.logs()[0].gen < writer.logs()[place].gen);
    }
}

/// The bytes that an entry of the index leads to are the encoded command
/// that sets the entry's key to the value that the store holds for it. So
/// a compaction, which keeps keys and values, copies every live command
/// byte for byte.
pub proof fn law_entries_lead_to_their_commands(writer: KvWriter, key: Seq<char>)
    requires
        writer.wf(),
        writer.entries().contains_key(key),
    ensures
        has_gen(writer.logs(), writer.entries()[key].gen),
        writer.entries()[key].pos + writer.entries()[key].len <= data_of(
            writer.logs(),
            writer.entries()[key].gen,
        ).len(),
        data_of(writer.logs(), writer.entries()[key].gen).subrange(
            writer.entries()[key].pos as int,
            writer.entries()[key].pos + writer.entries()[key].len,
        ) == put(key, writer@[key]).wire(),
{
    writer.lemma_wf();
    let entry = writer.entries()[key];
    let bytes = data_of(writer.logs(), entry.gen);
    lemma_command_at_advances(bytes, entry.pos as int);
    lemma_command_at_wire(bytes, entry.pos as int);
}

/// No two entries of the index share a byte: the commands of two keys
/// that lie in the log of one generation lie apart.
pub proof fn law_entries_do_not_overlap(writer: KvWriter, first: Seq<char>, second: Seq<char>)
    requires
        writer.wf(),
        first != second,
        writer.entries().contains_key(first),
        writer.entries().contains_key(second),
        writer.entries()[first].gen == writer.entries()[second].gen,
    ensures
        writer.entries()[first].pos + writer.entries()[first].len
            <= writer.entries()[second].pos || writer.entries()[second].pos
            + writer.entries()[second].len <= writer.entries()[first].pos,
{
    writer.lemma_wf();
    lemma_replay_dir_on_boundaries(writer.logs());
    let a = writer.entries()[first];
    let b = writer.entries()[second];
    let bytes = data_of(writer.logs(), a.gen);
    if a.pos < b.pos {
        lemma_entries_apart(bytes, a, b);
    } else if b.pos < a.pos {
        lemma_entries_apart(bytes, b, a);
    }
}

/// Every byte is accounted for: in a well-formed writer whose logs are
/// made of whole commands, the bytes of the logs are the bytes of the
/// commands that the index leads to and the bytes that replaying the logs
/// counts as dead. While the counter has not run into its ceiling, it is
/// that count.
pub proof fn law_bytes_are_live_or_dead(writer: KvWriter)
    requires
        writer.wf(),
        dir_complete(writer.logs()),
    ensures
        writer.entries().dom().finite(),
        total_bytes(writer.logs()) == live_bytes(writer.entries()) + replay_dir(
            writer.logs(),
        ).uncompacted,
        writer.spec_uncompacted() < u64::MAX ==> total_bytes(writer.logs()) == live_bytes(
            writer.entries(),
        ) + writer.spec_uncompacted(),
{
    writer.lemma_wf();
    lemma_replay_dir_accounts(writer.logs());
}

/// The size of the logs is bounded: while the counter of dead bytes is
/// within the limit, as it is after every write that succeeds, the logs
/// are larger than the live commands by no more than the limit.
pub proof fn law_logs_stay_small(writer: KvWriter)
    requires
        writer.wf(),
        dir_complete(writer.logs()),
        writer.spec_uncompacted() <= COMPACTION_LIMIT,
    ensures
        total_bytes(writer.logs()) <= live_bytes(writer.entries()) + COMPACTION_LIMIT,
{
    law_bytes_are_live_or_dead(writer);
}

/// A compaction leaves the live commands and nothing else: afterwards the
/// logs are as large as the commands that the index leads to, which is no
/// larger than the logs were before.
pub proof fn law_compaction_leaves_the_live_bytes(before: KvWriter, after: KvWriter)
    requires
        before.wf(),
        after.wf(),
        dir_complete(before.logs()),
        KvWriter::compacted(before, after),
        after.entries().dom() == before.entries().dom(),
        forall|key: Seq<char>| #[trigger]
            after.entries().contains_key(key) ==> after.entries()[key].len
                == before.entries()[key].len,
    ensures
        total_bytes(after.logs()) == live_bytes(after.entries()),
        live_bytes(after.entries()) == live_bytes(before.entries()),
        total_bytes(after.logs()) <= total_bytes(before.logs()),
{
    law_bytes_are_live_or_dead(before);
    law_bytes_are_live_or_dead(after);
    lemma_live_bytes_same(after.entries(), before.entries());
}

/// Writes keep the logs whole: where the logs were made of whole commands
/// and a write has appended to the last of them, they still are.
pub proof fn law_appends_keep_logs_whole(before: KvWriter, after: KvWriter, more: Seq<u8>)
    requires
        after.wf(),
        before.logs().len() > 0,
        dir_complete(before.logs()),
        after.logs() == append_last(before.logs(), more),
    ensures
        dir_complete(after.logs()),
{
    after.lemma_wf();
    assert forall|i: int| 0 <= i < after.logs().len() implies log_complete(
        (#[trigger] after.logs()[i]).data,
        0,
    ) by {
        if i < after.logs().len() - 1 {
            assert(after.logs()[i] == before.logs()[i]);
        }
    }
}

/// One step in the life of a store.
pub enum Step {
    /// A key is set to a value.
    Put { key: Seq<char>, value: Seq<char> },
    /// A key is removed.
    Remove { key: Seq<char> },
    /// The logs are compacted, or the store is opened again.
    Keep,
}

impl Step {
    /// Whether the step writes `key`.
    pub open spec fn writes(self, key: Seq<char>) -> bool {
        match self {
            Step::Put { key: written, .. } => written == key,
            Step::Remove { key: written } => written == key,
            Step::Keep => false,
        }
    }

    /// The store after the step.
    pub open spec fn after(self, store: Map<Seq<char>, Seq<char>>) -> Map<Seq<char>, Seq<char>> {
        match self {
            Step::Put { key, value } => store.insert(key, value),
            Step::Remove { key } => store.remove(key),
            Step::Keep => store,
        }
    }
}

/// Whether `states` are the states of a writer that went through `steps`:
/// every state is well-formed, and each holds the store that the step
/// before it makes of the state before, as `set`, `remove`, `compaction`
/// and opening again do.
pub open spec fn history(states: Seq<KvWriter>, steps: Seq<Step>) -> bool {
    &&& states.len() == steps.len() + 1
    &&& forall|i: int| 0 <= i < states.len() ==> (#[trigger] states[i]).wf()
    &&& forall|i: int|
        0 <= i < steps.len() ==> states[i + 1]@ == (#[trigger] steps[i]).after(states[i]@)
}

/// The last write wins, whatever lies between: after any history of
/// successful writes, compactions and reopenings, a key whose last write
/// set it is looked up to the value of that write, and a key whose last
/// write removed it is not found.
pub proof fn law_last_write_wins(
    states: Seq<KvWriter>,
    steps: Seq<Step>,
    last: int,
    key: Seq<char>,
)
    requires
        history(states, steps),
        0 <= last < steps.len(),
        steps[last].writes(key),
        forall|i: int| last < i < steps.len() ==> !(#[trigger] steps[i]).writes(key),
    ensures
        lookup(states.last().logs(), states.last().entries(), key) == (match steps[last] {
            Step::Put { key: written, value } => Lookup::Value(value),
            _ => Lookup::Absent,
        }),
    decreases steps.len() - last,
{
    if last == steps.len() - 1 {
        law_lookup_reads_the_store(states.last(), key);
    } else {
        let shorter = steps.drop_last();
        let earlier = states.drop_last();
        assert forall|i: int| 0 <= i < shorter.len() implies earlier[i + 1]@ == (
        #[trigger] shorter[i]).after(earlier[i]@) by {
            assert(steps[i] == shorter[i]);
        }
        assert forall|i: int| last < i < shorter.len() implies !(#[trigger] shorter[i]).writes(
            key,
        ) by {
            assert(steps[i] == shorter[i]);
        }
        law_last_write_wins(earlier, shorter, last, key);
        let n = steps.len() - 1;
        assert(!steps[n].writes(key));
        assert(states[n + 1]@ == steps[n].after(states[n]@));
        law_lookup_reads_the_store(earlier.last(), key);
        law_lookup_reads_the_store(states.last(), key);
    }
}

/// A key that no step of a history writes is looked up at the end to what
/// it was looked up to at the start.
pub proof fn law_unwritten_keys_stay(states: Seq<KvWriter>, steps: Seq<Step>, key: Seq<char>)
    requires
        history(states, steps),
        forall|i: int| 0 <= i < steps.len() ==> !(#[trigger] steps[i]).writes(key),
    ensures
        lookup(states.last().logs(), states.last().entries(), key) == lookup(
            states[0].logs(),
            states[0].entries(),
            key,
        ),
    decreases steps.len(),
{
    if steps.len() > 0 {
        let shorter = steps.drop_last();
        let earlier = states.drop_last();
        assert forall|i: int| 0 <= i < shorter.len() implies earlier[i + 1]@ == (
        #[trigger] shorter[i]).after(earlier[i]@) by {
            assert(steps[i] == shorter[i]);
        }
        assert forall|i: int| 0 <= i < shorter.len() implies !(#[trigger] shorter[i]).writes(
            key,
        ) by {
            assert(steps[i] == shorter[i]);
        }
        law_unwritten_keys_stay(earlier, shorter, key);
        let n = steps.len() - 1;
        assert(!steps[n].writes(key));
        assert(states[n + 1]@ == steps[n].after(states[n]@));
        law_lookup_reads_the_store(earlier.last(), key);
        law_lookup_reads_the_store(states.last(), key);
    }
}

} // verus!
