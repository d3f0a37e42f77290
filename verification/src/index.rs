//! The in-memory index: for every live key, where the command lies that set
//! it.

use dashmap::DashMap;
use vstd::prelude::*;

verus! {

/// Where the live command of a key resides: the generation of the log file,
/// the offset of the command's first byte, and the command's encoded length.
#[derive(Debug, Clone, Copy, PartialEq, Eq, Structural)]
pub struct CommandPos {
    pub gen: u64,
    pub pos: u64,
    pub len: u64,
}

/// dashmap's `DashMap`, a hash map that can be shared between threads. The
/// verifier carries a value of it through without looking inside; what it
/// holds is told by `index_entries`.
#[verifier::external_type_specification]
#[verifier::external_body]
#[verifier::reject_recursive_types(K)]
#[verifier::reject_recursive_types(V)]
#[verifier::reject_recursive_types(S)]
pub struct ExDashMap<K, V, S>(DashMap<K, V, S>);

/// The entries that a map of the index holds, keyed by the text of the key.
/// The wrappers below say how each call on the map changes and reads them.
pub uninterp spec fn index_entries(map: DashMap<String, CommandPos>) -> Map<Seq<char>, CommandPos>;

/// dashmap's `DashMap::new`: the contract claims that the new map is empty.
#[verifier::external_body]
fn map_new() -> (fresh: DashMap<String, CommandPos>)
    ensures
        index_entries(fresh) == Index::spec_empty(),
{
    DashMap::new()
}

/// dashmap's `DashMap::insert`: the contract claims that the map then holds
/// the entry beside its other entries, and that the value which the key had
/// before, if any, is returned.
#[verifier::external_body]
fn map_insert(map: &mut DashMap<String, CommandPos>, key: String, value: CommandPos) -> (old_value:
    Option<CommandPos>)
    ensures
        index_entries(*final(map)) == index_entries(*old(map)).insert(key@, value),
        old_value == if index_entries(*old(map)).contains_key(key@) {
            Some(index_entries(*old(map))[key@])
        } else {
            None
        },
{
    map.insert(key, value)
}

/// dashmap's `DashMap::remove`: the contract claims that the map then lacks
/// the key and keeps its other entries, and that the value which the key had,
/// if any, is returned.
#[verifier::external_body]
fn map_remove(map: &mut DashMap<String, CommandPos>, key: &String) -> (old_value: Option<
    CommandPos,
>)
    ensures
        index_entries(*final(map)) == index_entries(*old(map)).remove(key@),
        old_value == if index_entries(*old(map)).contains_key(key@) {
            Some(index_entries(*old(map))[key@])
        } else {
            None
        },
{
    map.remove(key).map(|entry| entry.1)
}

/// dashmap's `DashMap::get`: the contract claims that it finds the value of
/// the key exactly when the map holds the key.
#[verifier::external_body]
fn map_get(map: &DashMap<String, CommandPos>, key: &String) -> (value: Option<CommandPos>)
    ensures
        value == if index_entries(*map).contains_key(key@) {
            Some(index_entries(*map)[key@])
        } else {
            None
        },
{
    map.get(key).map(|entry| *entry.value())
}

/// dashmap's `DashMap::contains_key`: the contract claims that it tells
/// whether the map holds the key.
#[verifier::external_body]
fn map_contains_key(map: &DashMap<String, CommandPos>, key: &String) -> (found: bool)
    ensures
        found == index_entries(*map).contains_key(key@),
{
    map.contains_key(key)
}

/// dashmap's `DashMap::iter`: the contract claims that walking the map hands
/// out every entry once, in an order that is left open.
#[verifier::external_body]
fn map_items(map: &DashMap<String, CommandPos>) -> (items: Vec<(String, CommandPos)>)
    ensures
        forall|i: int, j: int|
            0 <= i < j < items@.len() ==> (#[trigger] items@[i]).0@ != (#[trigger] items@[j]).0@,
        forall|i: int|
            0 <= i < items@.len() ==> index_entries(*map).contains_pair(
                (#[trigger] items@[i]).0@,
                items@[i].1,
            ),
        forall|k: Seq<char>|
            index_entries(*map).contains_key(k) ==> exists|i: int|
                0 <= i < items@.len() && (#[trigger] items@[i]).0@ == k,
{
    map.iter().map(|entry| (entry.key().clone(), *entry.value())).collect()
}

/// The index of the store.
pub struct Index {
    map: DashMap<String, CommandPos>,
}

impl View for Index {
    type V = Map<Seq<char>, CommandPos>;

    closed spec fn view(&self) -> Map<Seq<char>, CommandPos> {
        index_entries(self.map)
    }
}

impl Index {
    /// The entries of an index that holds no key.
    pub open spec fn spec_empty() -> Map<Seq<char>, CommandPos> {
        Map::empty()
    }

    /// An index without entries.
    pub fn new() -> (index: Index)
        ensures
            index@ == Index::spec_empty(),
    {
        Index { map: map_new() }
    }

    /// Records `pos` for `key` and hands back the position recorded before.
    pub fn insert(&mut self, key: String, pos: CommandPos) -> (old_pos: Option<CommandPos>)
        ensures
            final(self)@ == old(self)@.insert(key@, pos),
            old_pos == if old(self)@.contains_key(key@) {
                Some(old(self)@[key@])
            } else {
                None
            },
    {
        map_insert(&mut self.map, key, pos)
    }

    /// Forgets `key` and hands back the position recorded for it.
    pub fn remove(&mut self, key: &String) -> (old_pos: Option<CommandPos>)
        ensures
            final(self)@ == old(self)@.remove(key@),
            old_pos == if old(self)@.contains_key(key@) {
                Some(old(self)@[key@])
            } else {
                None
            },
    {
        map_remove(&mut self.map, key)
    }

    /// The position recorded for `key`.
    pub fn get(&self, key: &String) -> (pos: Option<CommandPos>)
        ensures
            pos == if self@.contains_key(key@) {
                Some(self@[key@])
            } else {
                None
            },
    {
        map_get(&self.map, key)
    }

    /// Every key with its position, each key once, in no order that could
    /// be relied on.
    pub fn items(&self) -> (items: Vec<(String, CommandPos)>)
        ensures
            forall|i: int, j: int|
                0 <= i < j < items@.len() ==> (#[trigger] items@[i]).0@ != (
                #[trigger] items@[j]).0@,
            forall|i: int|
                0 <= i < items@.len() ==> self@.contains_pair(
                    (#[trigger] items@[i]).0@,
                    items@[i].1,
                ),
            forall|k: Seq<char>|
                self@.contains_key(k) ==> exists|i: int|
                    0 <= i < items@.len() && (#[trigger] items@[i]).0@ == k,
    {
        map_items(&self.map)
    }

    /// Whether a position is recorded for `key`.
    pub fn contains_key(&self, key: &String) -> (found: bool)
        ensures
            found == self@.contains_key(key@),
    {
        map_contains_key(&self.map, key)
    }
}

} // verus!
