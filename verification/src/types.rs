//! The data model shared by all stages of the engine.

use vstd::prelude::*;

verus! {

/// An entity: an opaque, unique identifier. Only equality of the id matters.
#[derive(Debug, Clone)]
pub struct Entity {
    pub id: String,
}

/// One query clause. An entity satisfies the clause when its attached tags
/// are a superset of `with` and disjoint from `without`.
#[derive(Debug, Clone)]
pub struct QueryWithComponents {
    pub with: Vec<u64>,
    pub without: Vec<u64>,
}

/// The error surfaced for a malformed query, such as an empty clause list.
/// No partial result accompanies it.
#[derive(Debug, Clone, Copy, PartialEq, Eq, Structural)]
pub struct InputError;

/// A membership mapping: one entry per entity, pairing the entity id with
/// the sequence of component tags attached to it.
///
/// Well-formed values (see [`MembershipMap::wf`]) have pairwise-distinct
/// keys and a non-empty tag sequence for every key; the entry order is the
/// order in which the keys were first seen.
#[derive(Debug, Clone)]
pub struct MembershipMap {
    pub entries: Vec<(String, Vec<u64>)>,
}

/// The model of an entry list: ids and tag vectors replaced by their views.
pub open spec fn entry_views(es: Seq<(String, Vec<u64>)>) -> Seq<(Seq<char>, Seq<u64>)> {
    es.map_values(|e: (String, Vec<u64>)| (e.0@, e.1@))
}

impl View for MembershipMap {
    type V = Seq<(Seq<char>, Seq<u64>)>;

    open spec fn view(&self) -> Seq<(Seq<char>, Seq<u64>)> {
        entry_views(self.entries@)
    }
}

/// Whether a mapping (as a model value) has an entry for key `k`.
pub open spec fn map_has_key(m: Seq<(Seq<char>, Seq<u64>)>, k: Seq<char>) -> bool {
    exists|i: int| 0 <= i < m.len() && m[i].0 == k
}

impl MembershipMap {
    /// Keys are pairwise distinct and every entity carries at least one tag.
    pub open spec fn wf(&self) -> bool {
        &&& forall|i: int, j: int| 0 <= i < j < self@.len() ==> self@[i].0 != self@[j].0
        &&& forall|i: int| 0 <= i < self@.len() ==> self@[i].1.len() > 0
    }
}

/// Whether some entity in the list `es` has id `k`.
pub open spec fn id_listed(es: Seq<Entity>, k: Seq<char>) -> bool {
    exists|i: int| 0 <= i < es.len() && es[i].id@ == k
}

/// The model of an id list: each id replaced by its character sequence.
pub open spec fn id_views(ids: Seq<String>) -> Seq<Seq<char>> {
    ids.map_values(|s: String| s@)
}

/// Finds the position of the entry with id `k` in an entry list, if any.
pub(crate) fn find_entry(entries: &Vec<(String, Vec<u64>)>, k: &String) -> (r: Option<usize>)
    ensures
        match r {
            Some(j) => j < entries@.len() && entry_views(entries@)[j as int].0 == k@,
            None => !map_has_key(entry_views(entries@), k@),
        },
{
    let mut j: usize = 0;
    while j < entries.len()
        invariant
            j <= entries.len(),
            forall|t: int| 0 <= t < j ==> (#[trigger] entry_views(entries@)[t]).0 != k@,
        decreases entries.len() - j,
    {
        if entries[j].0 == *k {
            assert(entry_views(entries@)[j as int].0 == k@);
            return Some(j);
        }
        j += 1;
    }
    None
}

/// Copies a tag vector element by element.
pub(crate) fn copy_tags(src: &Vec<u64>) -> (r: Vec<u64>)
    ensures
        r@ == src@,
{
    let mut r: Vec<u64> = Vec::new();
    let mut j: usize = 0;
    while j < src.len()
        invariant
            j <= src.len(),
            r@ == src@.take(j as int),
        decreases src.len() - j,
    {
        proof {
            assert(src@.take(j as int).push(src@[j as int]) =~= src@.take(j + 1));
        }
        r.push(src[j]);
        j += 1;
    }
    proof {
        assert(src@.take(src@.len() as int) =~= src@);
    }
    r
}

/// One slot of a result tuple: the entity id itself, a component value
/// handle, or the sentinel for a missing optional value.
#[derive(Debug, Clone, PartialEq, Eq)]
pub enum Slot {
    Id(String),
    Value(u64),
    Absent,
}

/// The model of a [`Slot`]: the same alternatives over mathematical values.
pub enum SlotModel {
    Id(Seq<char>),
    Value(u64),
    Absent,
}

impl View for Slot {
    type V = SlotModel;

    open spec fn view(&self) -> SlotModel {
        match self {
            Slot::Id(s) => SlotModel::Id(s@),
            Slot::Value(v) => SlotModel::Value(*v),
            Slot::Absent => SlotModel::Absent,
        }
    }
}

/// A sparse component value table: one entry per (entity id, tag) key that
/// has a value, holding the value handle. Missing keys mean "no value",
/// which is distinct from any explicit value.
#[derive(Debug, Clone)]
pub struct ValueTable {
    pub entries: Vec<(String, u64, u64)>,
}

impl View for ValueTable {
    type V = Seq<(Seq<char>, u64, u64)>;

    open spec fn view(&self) -> Seq<(Seq<char>, u64, u64)> {
        self.entries@.map_values(|e: (String, u64, u64)| (e.0@, e.1, e.2))
    }
}

impl ValueTable {
    /// The (entity id, tag) keys are pairwise distinct.
    pub open spec fn wf(&self) -> bool {
        forall|i: int, j: int|
            0 <= i < j < self@.len() ==> (self@[i].0, self@[i].1) != (self@[j].0, self@[j].1)
    }
}

/// Whether the table (as a model value) holds a value for `(k, tag)`.
pub open spec fn table_has(t: Seq<(Seq<char>, u64, u64)>, k: Seq<char>, tag: u64) -> bool {
    exists|i: int| 0 <= i < t.len() && t[i].0 == k && t[i].1 == tag
}

/// The value the table holds for `(k, tag)`; meaningful only when the keys
/// are distinct and `table_has(t, k, tag)` holds.
pub open spec fn table_value(t: Seq<(Seq<char>, u64, u64)>, k: Seq<char>, tag: u64) -> u64 {
    let i = choose|i: int| 0 <= i < t.len() && t[i].0 == k && t[i].1 == tag;
    t[i].2
}

} // verus!
