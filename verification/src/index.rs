//! The in-memory index: a concurrent, lock-free map from each live key to
//! the on-disk location of its most recent `Set` record.
//!
//! The map itself is crossbeam's `SkipMap`; `index_view` names its contents,
//! and the wrappers below state what each operation the engine calls does to
//! them, as the crate's source shows.

use vstd::prelude::*;
use crossbeam_skiplist::SkipMap;

verus! {

/// The location of a `Set` record: its segment's generation, its first
/// character, and its length in characters.
#[derive(Debug, Copy, Clone, PartialEq, Eq, Structural)]
pub struct CommandPos {
    pub gen: u64,
    pub pos: u64,
    pub len: u64,
}

#[verifier::external_type_specification]
#[verifier::external_body]
#[verifier::reject_recursive_types(K)]
#[verifier::reject_recursive_types(V)]
pub struct ExSkipMap<K, V>(SkipMap<K, V>);

/// The contents of the index: which location each key is mapped to.
pub uninterp spec fn index_view(m: SkipMap<String, CommandPos>) -> Map<Seq<char>, CommandPos>;

/// Relies on `SkipMap::new`: a fresh map holds no entries.
#[verifier::external_body]
pub(crate) fn index_new() -> (r: SkipMap<String, CommandPos>)
    ensures
        index_view(r) =~= Map::empty(),
{
    SkipMap::new()
}

/// Relies on `SkipMap::get`: returns the entry with the given key, if one is
/// present.
#[verifier::external_body]
pub(crate) fn index_get(m: &SkipMap<String, CommandPos>, key: &String) -> (r: Option<CommandPos>)
    ensures
        (match r {
            Some(p) => index_view(*m).dom().contains(key@) && index_view(*m)[key@] == p,
            None => !index_view(*m).dom().contains(key@),
        }),
{
    m.get(key).map(|e| *e.value())
}

/// Relies on `SkipMap::insert`: inserts a key-value pair, removing any
/// existing entry with this key first.
#[verifier::external_body]
pub(crate) fn index_insert(m: &mut SkipMap<String, CommandPos>, key: String, pos: CommandPos)
    ensures
        index_view(*final(m)) == index_view(*old(m)).insert(key@, pos),
{
    m.insert(key, pos);
}

/// Relies on `SkipMap::remove`: removes the entry with the given key and
/// returns it, or returns `None` if no entry has that key.
#[verifier::external_body]
pub(crate) fn index_remove(m: &mut SkipMap<String, CommandPos>, key: &String) -> (r: Option<
    CommandPos,
>)
    ensures
        (match r {
            Some(p) => index_view(*old(m)).dom().contains(key@) && index_view(*old(m))[key@] == p
                && index_view(*final(m)) == index_view(*old(m)).remove(key@),
            None => !index_view(*old(m)).dom().contains(key@) && index_view(*final(m))
                == index_view(*old(m)),
        }),
{
    m.remove(key).map(|e| *e.value())
}

/// Relies on `SkipMap::iter` and `Entry::key`/`Entry::value`: iteration
/// yields each entry of the map exactly once.
#[verifier::external_body]
pub(crate) fn index_entries(m: &SkipMap<String, CommandPos>) -> (r: Vec<(String, CommandPos)>)
    ensures
        forall|a: int|
            #![trigger r@[a]]
            0 <= a < r@.len() ==> index_view(*m).dom().contains(r@[a].0@) && index_view(*m)[r@[
                a
            ].0@] == r@[a].1,
        forall|k: Seq<char>|
            index_view(*m).dom().contains(k) ==> exists|a: int|
                0 <= a < r@.len() && #[trigger] r@[a].0@ == k,
        forall|a: int, b: int| 0 <= a < b < r@.len() ==> r@[a].0@ != r@[b].0@,
{
    m.iter().map(|e| (e.key().clone(), *e.value())).collect()
}

} // verus!
