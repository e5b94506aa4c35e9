//! Flushing frozen tables and compacting the sorted tiers.
//!
//! The flush step takes the oldest frozen in-memory table, writes its
//! entries as a fresh sorted table on the young tier, and hands back the
//! id of the write-ahead log that may now be unlinked. Compaction merges
//! every sorted table, oldest to newest, into a single table on the deep
//! tier; tombstones are dropped there, because nothing older is left for
//! them to shadow. Neither step changes what any read returns.

use vstd::prelude::*;

use crate::engine::{
    lemma_probe_back_concat, lemma_probe_back_union, memtable_maps, probe_back, sstable_maps,
    union_all, Engine,
};
use crate::memtable::entries_view;
use crate::records::{
    keep_values, lemma_keep_values_map, lemma_wal_of_encode_all, lemma_wal_records_bounded,
};
use crate::sstable::{encode_entries, SSTable};
use crate::storage::Storage;
use crate::Stored;

verus! {

/// Reopens a table from a copy of its bytes under another id.
fn reopen(t: &SSTable, id: u64) -> (r: SSTable)
    requires
        t.wf(),
    ensures
        r.wf(),
        r.id == id,
        r@ == t@,
{
    let data = crate::format::copy_range(&t.data, 0, t.data.len());
    proof {
        assert(data@ =~= t.data@);
    }
    match SSTable::new(id, data) {
        Ok(r) => r,
        Err(_) => {
            proof {
                assert(false);
            }
            vstd::pervasive::unreached()
        }
    }
}

/// Keeps the entries that carry a value, in order.
fn strip_tombstone_entries(entries: &Vec<(Vec<u8>, Stored)>) -> (r: Vec<(Vec<u8>, Stored)>)
    ensures
        entries_view(r@) == keep_values(entries_view(entries@)),
{
    let ghost view = entries_view(entries@);
    let mut out: Vec<(Vec<u8>, Stored)> = Vec::new();
    let mut i: usize = 0;
    proof {
        assert(view.skip(0) =~= view);
        assert(entries_view(out@) =~= Seq::<(Seq<u8>, Option<Seq<u8>>)>::empty());
        assert(entries_view(out@) + keep_values(view) =~= keep_values(view));
    }
    while i < entries.len()
        invariant
            i <= entries@.len(),
            view == entries_view(entries@),
            entries_view(out@) + keep_values(view.skip(i as int)) == keep_values(view),
        decreases entries@.len() - i,
    {
        let ghost pre = entries_view(out@);
        let ghost s = view.skip(i as int);
        proof {
            assert(s[0] == view[i as int]);
            assert(s.skip(1) =~= view.skip(i + 1));
        }
        let e = &entries[i];
        match &e.1 {
            Stored::Value(_) => {
                let c = crate::sstable::clone_entry(e);
                out.push(c);
                proof {
                    assert(entries_view(out@) =~= pre.push(view[i as int]));
                    assert(keep_values(s) == seq![view[i as int]] + keep_values(view.skip(i + 1)));
                    assert(entries_view(out@) + keep_values(view.skip(i + 1)) =~= keep_values(
                        view,
                    ));
                }
            }
            Stored::Tombstone => {
                proof {
                    assert(keep_values(s) == keep_values(view.skip(i + 1)));
                }
            }
        }
        i = i + 1;
    }
    proof {
        assert(view.skip(view.len() as int) =~= Seq::<(Seq<u8>, Option<Seq<u8>>)>::empty());
        assert(entries_view(out@) =~= keep_values(view));
    }
    out
}

/// Flushes the oldest frozen in-memory table, if one waits: writes its
/// entries as a new sorted table on the young tier and returns the id of
/// the write-ahead log that may now be unlinked. No read changes.
#[verifier::loop_isolation(false)]
pub fn persist_memtable(engine: &mut Engine, segment_id: u64) -> (r: Option<u64>)
    requires
        old(engine).wf(),
        old(engine).table_ids_below(segment_id),
    ensures
        final(engine).wf(),
        forall|k: Seq<u8>| final(engine).spec_read(k) == old(engine).spec_read(k),
        final(engine).active_memtable == old(engine).active_memtable,
        final(engine).sstables1@ == old(engine).sstables1@,
        match r {
            Some(wal_id) => {
                &&& old(engine).memtables@.len() > 0
                &&& wal_id == old(engine).memtables@[0].id
                &&& final(engine).memtables@ == old(engine).memtables@.skip(1)
                &&& final(engine).sstables0@.len() == old(engine).sstables0@.len() + 1
                &&& forall|i: int|
                    0 <= i < old(engine).sstables0@.len() ==> final(engine).sstables0@[i] == old(
                        engine,
                    ).sstables0@[i]
                &&& final(engine).sstables0@.last().id == segment_id
                &&& final(engine).sstables0@.last()@ == old(engine).memtables@[0]@
            },
            None => {
                &&& old(engine).memtables@.len() == 0
                &&& final(engine).memtables@ == old(engine).memtables@
                &&& final(engine).sstables0@ == old(engine).sstables0@
            },
        },
        forall|i: int|
            0 <= i < final(engine).sstables0@.len()
                ==> (#[trigger] final(engine).sstables0@[i]).id <= segment_id,
        forall|i: int|
            0 <= i < final(engine).sstables1@.len()
                ==> (#[trigger] final(engine).sstables1@[i]).id <= segment_id,
{
    if engine.memtables.len() == 0 {
        return None;
    }
    let mem = engine.memtables.remove(0);
    let wal_id = mem.id;
    let ghost m0map = mem@;
    let bytes = mem.persist();
    let table = match SSTable::new(segment_id, bytes) {
        Ok(t) => t,
        Err(_) => {
            proof {
                assert(false);
            }
            vstd::pervasive::unreached()
        }
    };
    engine.sstables0.push(table);
    proof {
        let pre = old(engine);
        let post = engine;
        assert(memtable_maps(pre.memtables@) =~= seq![m0map] + memtable_maps(post.memtables@));
        assert(sstable_maps(post.sstables0@) =~= sstable_maps(pre.sstables0@) + seq![m0map]);
        assert(post.layer_maps() =~= pre.layer_maps());
    }
    Some(wal_id)
}

/// What one key reads out of all the retired tables together: the
/// newest (rightmost) table holding it decides.
pub open spec fn retired_union(pre: &Engine) -> Map<Seq<u8>, Option<Seq<u8>>> {
    union_all(sstable_maps(pre.sstables1@) + sstable_maps(pre.sstables0@))
}

/// Merges every sorted table, oldest to newest, into one table on the
/// deep tier, dropping tombstones there, and empties the young tier:
/// the installed table carries the new id and holds exactly the keys
/// the retired tables resolved to a value, each with that value — no
/// tombstone survives at the deepest level, since nothing older is left
/// for it to shadow. With no tables at all it does nothing. No read
/// changes.
#[verifier::loop_isolation(false)]
#[verifier::rlimit(60)]
pub fn trigger_l0_compaction(engine: &mut Engine, new_id: u64)
    requires
        old(engine).wf(),
        old(engine).table_ids_below(new_id),
    ensures
        final(engine).wf(),
        forall|k: Seq<u8>| final(engine).spec_read(k) == old(engine).spec_read(k),
        final(engine).active_memtable == old(engine).active_memtable,
        final(engine).memtables@ == old(engine).memtables@,
        if old(engine).sstables0@.len() == 0 && old(engine).sstables1@.len() == 0 {
            *final(engine) == *old(engine)
        } else {
            &&& final(engine).sstables0@.len() == 0
            &&& final(engine).sstables1@.len() == 1
            &&& final(engine).sstables1@[0].id == new_id
            &&& forall|k: Seq<u8>| #[trigger]
                final(engine).sstables1@[0]@.contains_key(k) <==> (retired_union(
                    &old(engine)).contains_key(k) && retired_union(&old(engine))[k] is Some)
            &&& forall|k: Seq<u8>| #[trigger]
                final(engine).sstables1@[0]@.contains_key(k)
                    ==> final(engine).sstables1@[0]@[k] == retired_union(&old(engine))[k]
        },
        forall|i: int|
            0 <= i < final(engine).sstables0@.len()
                ==> (#[trigger] final(engine).sstables0@[i]).id <= new_id,
        forall|i: int|
            0 <= i < final(engine).sstables1@.len()
                ==> (#[trigger] final(engine).sstables1@[i]).id <= new_id,
{
    let n1 = engine.sstables1.len();
    let n0 = engine.sstables0.len();
    if n1 == 0 && n0 == 0 {
        return ;
    }
    let ghost s1m = sstable_maps(old(engine).sstables1@);
    let ghost s0m = sstable_maps(old(engine).sstables0@);
    let ghost all = s1m + s0m;
    let mut acc: Option<SSTable> = None;
    let mut i: usize = 0;
    proof {
        assert(union_all(all.take(0)) =~= Map::<Seq<u8>, Option<Seq<u8>>>::empty());
    }
    while i < n1
        invariant
            i <= n1,
            engine == old(engine),
            match acc {
                Some(t) => t.wf() && i > 0 && t@ == union_all(all.take(i as int)),
                None => i == 0,
            },
        decreases n1 - i,
    {
        let ghost n = i as int;
        let next = match acc {
            None => reopen(&engine.sstables1[i], new_id),
            Some(prev) => SSTable::merge(new_id, &prev, &engine.sstables1[i]),
        };
        proof {
            assert(all[n] == engine.sstables1@[n]@);
            assert(all.take(n + 1).drop_last() =~= all.take(n));
            assert(all.take(n + 1).last() == all[n]);
            if n == 0 {
                assert(next@ =~= union_all(all.take(1)));
            }
        }
        acc = Some(next);
        i = i + 1;
    }
    let mut j: usize = 0;
    while j < n0
        invariant
            j <= n0,
            engine == old(engine),
            match acc {
                Some(t) => t.wf() && n1 + j > 0 && t@ == union_all(all.take(n1 + j as int)),
                None => n1 == 0 && j == 0,
            },
        decreases n0 - j,
    {
        let ghost n = n1 + j as int;
        let next = match acc {
            None => reopen(&engine.sstables0[j], new_id),
            Some(prev) => SSTable::merge(new_id, &prev, &engine.sstables0[j]),
        };
        proof {
            assert(all[n] == engine.sstables0@[j as int]@);
            assert(all.take(n + 1).drop_last() =~= all.take(n));
            assert(all.take(n + 1).last() == all[n]);
            if n == 0 {
                assert(next@ =~= union_all(all.take(1)));
            }
        }
        acc = Some(next);
        j = j + 1;
    }
    let merged = match acc {
        Some(t) => t,
        None => {
            proof {
                assert(false);
            }
            vstd::pervasive::unreached()
        }
    };
    proof {
        assert(all.take((n1 + n0) as int) =~= all);
        assert(merged@ == union_all(all));
    }
    // Drop tombstones: this merge reaches the deepest tier, so nothing
    // older is left for them to shadow.
    let entries = merged.scan();
    let kept = strip_tombstone_entries(&entries);
    let data = encode_entries(&kept);
    let ghost dv = data@;
    proof {
        lemma_wal_records_bounded(merged.data@);
        lemma_keep_values_map(merged.records());
        lemma_wal_of_encode_all(keep_values(merged.records()));
    }
    let table = match SSTable::new(new_id, data) {
        Ok(t) => t,
        Err(_) => {
            proof {
                assert(false);
            }
            vstd::pervasive::unreached()
        }
    };
    let ghost tmap = table@;
    engine.sstables0.clear();
    engine.sstables1.clear();
    engine.sstables1.push(table);
    proof {
        let pre = old(engine);
        let post = engine;
        let upper = memtable_maps(pre.memtables@) + seq![pre.active_memtable@];
        assert(pre.layer_maps() =~= (s1m + s0m) + upper);
        assert(post.layer_maps() =~= seq![tmap] + upper);
        assert forall|k: Seq<u8>| post.spec_read(k) == pre.spec_read(k) by {
            lemma_probe_back_concat(s1m + s0m, upper, k);
            lemma_probe_back_concat(seq![tmap], upper, k);
            if probe_back(upper, k) is None {
                lemma_probe_back_union(all, k);
                assert(probe_back(seq![tmap], k) == if tmap.contains_key(k) {
                    Some(tmap[k])
                } else {
                    None::<Option<Seq<u8>>>
                }) by {
                    assert(seq![tmap].last() == tmap);
                    assert(seq![tmap].drop_last() =~= Seq::<Map<Seq<u8>, Option<Seq<u8>>>>::empty());
                    assert(probe_back(Seq::<Map<Seq<u8>, Option<Seq<u8>>>>::empty(), k) is None);
                }
                assert(tmap.contains_key(k) <==> (union_all(all).contains_key(k) && union_all(
                    all,
                )[k] is Some));
            }
        }
    }
}

impl Storage {
    /// Flushes the oldest frozen table to a new sorted table named by
    /// the next segment id, returning the id of the write-ahead log that
    /// may now be unlinked; `None` when nothing waits. No read changes.
    pub fn flush_oldest(&mut self) -> (r: Option<u64>)
        requires
            old(self).wf(),
            old(self).next_segment_id < u64::MAX,
        ensures
            final(self).wf(),
            forall|k: Seq<u8>| final(self).spec_read(k) == old(self).spec_read(k),
            final(self).engine.active_memtable == old(self).engine.active_memtable,
            final(self).engine.sstables1@ == old(self).engine.sstables1@,
            final(self).sequence_number == old(self).sequence_number,
            final(self).config == old(self).config,
            match r {
                Some(wal_id) => {
                    &&& old(self).engine.memtables@.len() > 0
                    &&& wal_id == old(self).engine.memtables@[0].id
                    &&& final(self).engine.memtables@ == old(self).engine.memtables@.skip(1)
                    &&& final(self).engine.sstables0@.len() == old(self).engine.sstables0@.len()
                        + 1
                    &&& final(self).engine.sstables0@.last().id == old(self).next_segment_id
                    &&& final(self).engine.sstables0@.last()@ == old(self).engine.memtables@[0]@
                },
                None => {
                    &&& old(self).engine.memtables@.len() == 0
                    &&& final(self).engine.memtables@ == old(self).engine.memtables@
                    &&& final(self).engine.sstables0@ == old(self).engine.sstables0@
                },
            },
            final(self).next_segment_id == old(self).next_segment_id + (if r is Some {
                1int
            } else {
                0int
            }),
    {
        match persist_memtable(&mut self.engine, self.next_segment_id) {
            Some(wal_id) => {
                self.next_segment_id = self.next_segment_id + 1;
                Some(wal_id)
            }
            None => None,
        }
    }

    /// Merges all sorted tables into one fresh table on the deep tier,
    /// named by the next segment id, and empties the young tier: the
    /// installed table holds exactly the keys the retired tables
    /// resolved to a value, tombstones dropped. No read changes.
    pub fn compact(&mut self)
        requires
            old(self).wf(),
            old(self).next_segment_id < u64::MAX,
        ensures
            final(self).wf(),
            forall|k: Seq<u8>| final(self).spec_read(k) == old(self).spec_read(k),
            final(self).engine.active_memtable == old(self).engine.active_memtable,
            final(self).engine.memtables@ == old(self).engine.memtables@,
            if old(self).engine.sstables0@.len() == 0 && old(self).engine.sstables1@.len()
                == 0 {
                &&& final(self).engine.sstables0@ == old(self).engine.sstables0@
                &&& final(self).engine.sstables1@ == old(self).engine.sstables1@
            } else {
                &&& final(self).engine.sstables0@.len() == 0
                &&& final(self).engine.sstables1@.len() == 1
                &&& final(self).engine.sstables1@[0].id == old(self).next_segment_id
                &&& forall|k: Seq<u8>| #[trigger]
                    final(self).engine.sstables1@[0]@.contains_key(k) <==> (retired_union(
                        &old(self).engine).contains_key(k) && retired_union(
                        &old(self).engine)[k] is Some)
                &&& forall|k: Seq<u8>| #[trigger]
                    final(self).engine.sstables1@[0]@.contains_key(k)
                        ==> final(self).engine.sstables1@[0]@[k] == retired_union(
                        &old(self).engine)[k]
            },
            final(self).sequence_number == old(self).sequence_number,
            final(self).next_segment_id == old(self).next_segment_id + 1,
            final(self).config == old(self).config,
    {
        trigger_l0_compaction(&mut self.engine, self.next_segment_id);
        self.next_segment_id = self.next_segment_id + 1;
    }
}

} // verus!
