//! The engine: the owned layers of the store, and what a layered read
//! means.
//!
//! The layers, oldest first: the compacted tables, the freshly flushed
//! tables, the frozen in-memory tables awaiting flush, and the one active
//! in-memory table. A read probes them newest first and the first layer
//! that recorded the key decides: a value answers, a tombstone answers
//! "gone" without consulting anything older.

use vstd::prelude::*;

use crate::memtable::MemTable;
use crate::sstable::SSTable;

verus! {

/// Probes a sequence of layer maps from the newest (last) backwards:
/// `Some(stored)` from the newest layer that recorded the key, `None`
/// when no layer did.
pub open spec fn probe_back(maps: Seq<Map<Seq<u8>, Option<Seq<u8>>>>, k: Seq<u8>) -> Option<
    Option<Seq<u8>>,
>
    decreases maps.len(),
{
    if maps.len() == 0 {
        None
    } else if maps.last().contains_key(k) {
        Some(maps.last()[k])
    } else {
        probe_back(maps.drop_last(), k)
    }
}

/// Probing a concatenation asks the younger half first.
pub proof fn lemma_probe_back_concat(
    s1: Seq<Map<Seq<u8>, Option<Seq<u8>>>>,
    s2: Seq<Map<Seq<u8>, Option<Seq<u8>>>>,
    k: Seq<u8>,
)
    ensures
        probe_back(s1 + s2, k) == if probe_back(s2, k) is Some {
            probe_back(s2, k)
        } else {
            probe_back(s1, k)
        },
    decreases s2.len(),
{
    if s2.len() == 0 {
        assert(s1 + s2 =~= s1);
    } else {
        assert((s1 + s2).last() == s2.last());
        assert((s1 + s2).drop_last() =~= s1 + s2.drop_last());
        lemma_probe_back_concat(s1, s2.drop_last(), k);
    }
}

/// The union of a sequence of layer maps, the newest (last) winning on a
/// shared key.
pub open spec fn union_all(maps: Seq<Map<Seq<u8>, Option<Seq<u8>>>>) -> Map<
    Seq<u8>,
    Option<Seq<u8>>,
>
    decreases maps.len(),
{
    if maps.len() == 0 {
        Map::empty()
    } else {
        union_all(maps.drop_last()).union_prefer_right(maps.last())
    }
}

/// Probing the layers and looking the union up agree.
pub proof fn lemma_probe_back_union(maps: Seq<Map<Seq<u8>, Option<Seq<u8>>>>, k: Seq<u8>)
    ensures
        probe_back(maps, k) == if union_all(maps).contains_key(k) {
            Some(union_all(maps)[k])
        } else {
            None::<Option<Seq<u8>>>
        },
    decreases maps.len(),
{
    if maps.len() > 0 {
        lemma_probe_back_union(maps.drop_last(), k);
    }
}

/// Read ordering: when a key is present in several layers, the probe
/// answers with the newest of them — whatever the layers below hold,
/// a tombstone included, since a tombstone is an answer like any value.
pub proof fn lemma_read_ordering(
    maps: Seq<Map<Seq<u8>, Option<Seq<u8>>>>,
    i: int,
    k: Seq<u8>,
)
    requires
        0 <= i < maps.len(),
        maps[i].contains_key(k),
        forall|j: int| i < j < maps.len() ==> !(#[trigger] maps[j]).contains_key(k),
    ensures
        probe_back(maps, k) == Some(maps[i][k]),
    decreases maps.len(),
{
    if i == maps.len() - 1 {
    } else {
        assert(!maps[maps.len() - 1].contains_key(k));
        assert(maps.drop_last()[i] == maps[i]);
        lemma_read_ordering(maps.drop_last(), i, k);
    }
}

/// The maps a sequence of in-memory tables denotes, in the same order.
pub open spec fn memtable_maps(ts: Seq<MemTable>) -> Seq<Map<Seq<u8>, Option<Seq<u8>>>> {
    ts.map_values(|t: MemTable| t@)
}

/// The maps a sequence of sorted tables denotes, in the same order.
pub open spec fn sstable_maps(ts: Seq<SSTable>) -> Seq<Map<Seq<u8>, Option<Seq<u8>>>> {
    ts.map_values(|t: SSTable| t@)
}

/// The engine: the one active in-memory table, the frozen in-memory
/// tables awaiting flush (oldest first), and the two tiers of sorted
/// tables (each oldest first).
pub struct Engine {
    pub active_memtable: MemTable,
    pub memtables: Vec<MemTable>,
    pub sstables0: Vec<SSTable>,
    pub sstables1: Vec<SSTable>,
}

impl Engine {
    /// All layer maps, oldest first: compacted tables, then flushed
    /// tables, then frozen in-memory tables, then the active one.
    pub open spec fn layer_maps(&self) -> Seq<Map<Seq<u8>, Option<Seq<u8>>>> {
        sstable_maps(self.sstables1@) + sstable_maps(self.sstables0@) + memtable_maps(
            self.memtables@,
        ) + seq![self.active_memtable@]
    }

    /// What the newest layer recording the key stores, if any layer does.
    pub open spec fn probe_spec(&self, k: Seq<u8>) -> Option<Option<Seq<u8>>> {
        probe_back(self.layer_maps(), k)
    }

    /// What a read of the key returns: the newest layer's value, with a
    /// tombstone and an unrecorded key both reading as nothing.
    pub open spec fn spec_read(&self, k: Seq<u8>) -> Option<Seq<u8>> {
        match probe_back(self.layer_maps(), k) {
            Some(Some(v)) => Some(v),
            _ => None,
        }
    }

    /// Every table id in the engine lies below this bound.
    pub open spec fn table_ids_below(&self, bound: u64) -> bool {
        &&& forall|i: int| 0 <= i < self.sstables0@.len() ==> (#[trigger] self.sstables0@[i]).id < bound
        &&& forall|i: int| 0 <= i < self.sstables1@.len() ==> (#[trigger] self.sstables1@[i]).id < bound
    }

    /// The engine is well formed: every layer is, the frozen tables'
    /// ids strictly ascend below the active one's, and the sorted
    /// tables' ids strictly ascend from the compacted tier through the
    /// fresh tier, so age order and id order agree.
    pub open spec fn wf(&self) -> bool {
        &&& self.active_memtable.wf()
        &&& forall|i: int| 0 <= i < self.memtables@.len() ==> (#[trigger] self.memtables@[i]).wf()
        &&& forall|i: int| 0 <= i < self.sstables0@.len() ==> (#[trigger] self.sstables0@[i]).wf()
        &&& forall|i: int| 0 <= i < self.sstables1@.len() ==> (#[trigger] self.sstables1@[i]).wf()
        &&& forall|i: int, j: int|
            0 <= i < j < self.memtables@.len() ==> (#[trigger] self.memtables@[i]).id < (
            #[trigger] self.memtables@[j]).id
        &&& forall|i: int|
            0 <= i < self.memtables@.len() ==> (#[trigger] self.memtables@[i]).id
                < self.active_memtable.id
        &&& forall|i: int, j: int|
            0 <= i < j < self.sstables0@.len() ==> (#[trigger] self.sstables0@[i]).id < (
            #[trigger] self.sstables0@[j]).id
        &&& forall|i: int, j: int|
            0 <= i < j < self.sstables1@.len() ==> (#[trigger] self.sstables1@[i]).id < (
            #[trigger] self.sstables1@[j]).id
        &&& forall|i: int, j: int|
            0 <= i < self.sstables1@.len() && 0 <= j < self.sstables0@.len() ==> (
            #[trigger] self.sstables1@[i]).id < (#[trigger] self.sstables0@[j]).id
    }
}

} // verus!
