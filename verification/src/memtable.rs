//! The in-memory table of recent writes.
//!
//! A MemTable keeps entries ordered by key and is bound to one write-ahead
//! log: every mutation is appended to the log before the ordered table is
//! touched, so the table always equals the state that replaying the log
//! would produce. Removals store a tombstone, because the key's older
//! state may already live in a persisted sorted table and cannot simply be
//! erased.

use vstd::prelude::*;

use crate::format::{encode_record, parse_record, pow256, read_entry, write_entry, ReadOutcome};
use crate::records::{
    encode_all, fully_valid, lemma_map_of_absent, lemma_map_of_insert_mid, lemma_map_of_push,
    lemma_map_of_sorted, lemma_map_of_sorted_len, lemma_wal_append, lemma_wal_of_encode_all,
    lemma_wal_step, map_of, records_bounded, sorted_strict, wal_records, wal_valid_len,
};
use crate::{
    key_cmp, lemma_lex_total, lemma_lex_trans, lemma_vec_len_bounded, lex_lt, KeyOrder, Probe,
    Stored,
};

verus! {

/// The view of a vector of owned entries as a sequence of records.
pub open spec fn entries_view(entries: Seq<(Vec<u8>, Stored)>) -> Seq<(Seq<u8>, Option<Seq<u8>>)> {
    entries.map_values(|e: (Vec<u8>, Stored)| (e.0@, e.1@))
}

/// An in-memory ordered table of recent writes, bound to the contents of
/// its write-ahead log.
pub struct MemTable {
    /// The sequence id that names this table's write-ahead log.
    pub id: u64,
    /// The entries, strictly ascending by key, one per distinct key.
    pub entries: Vec<(Vec<u8>, Stored)>,
    /// The bytes of this table's write-ahead log.
    pub wal: Vec<u8>,
}

impl View for MemTable {
    type V = Map<Seq<u8>, Option<Seq<u8>>>;

    open spec fn view(&self) -> Map<Seq<u8>, Option<Seq<u8>>> {
        map_of(entries_view(self.entries@))
    }
}

impl MemTable {
    /// The table is well formed: entries strictly ascending by key, and
    /// the table equal to what replaying its write-ahead log yields.
    pub open spec fn wf(&self) -> bool {
        &&& sorted_strict(entries_view(self.entries@))
        &&& records_bounded(entries_view(self.entries@))
        &&& fully_valid(self.wal@)
        &&& map_of(wal_records(self.wal@)) == self@
    }

    /// Creates an empty MemTable with an empty write-ahead log.
    pub fn new(id: u64) -> (r: MemTable)
        ensures
            r.wf(),
            r@ == Map::<Seq<u8>, Option<Seq<u8>>>::empty(),
            r.id == id,
            r.wal@ == Seq::<u8>::empty(),
            r.entries@.len() == 0,
    {
        let r = MemTable { id, entries: Vec::new(), wal: Vec::new() };
        proof {
            assert(entries_view(r.entries@) =~= Seq::<(Seq<u8>, Option<Seq<u8>>)>::empty());
            assert(r@ =~= Map::<Seq<u8>, Option<Seq<u8>>>::empty());
        }
        r
    }

    /// Rebuilds a MemTable from the bytes of a write-ahead log: replays
    /// every intact record in order and truncates the log at the last
    /// valid byte boundary, silently discarding a torn tail.
    pub fn recover(id: u64, wal_bytes: Vec<u8>) -> (r: MemTable)
        ensures
            r.wf(),
            r.id == id,
            r@ == map_of(wal_records(wal_bytes@)),
            r.wal@ == wal_bytes@.subrange(0, wal_valid_len(wal_bytes@)),
    {
        let mut entries: Vec<(Vec<u8>, Stored)> = Vec::new();
        let mut pos: usize = 0;
        let ghost mut processed: Seq<(Seq<u8>, Option<Seq<u8>>)> = Seq::empty();
        proof {
            assert(wal_bytes@.subrange(0, 0) =~= Seq::<u8>::empty());
            assert(wal_bytes@.skip(0) =~= wal_bytes@);
            assert(wal_records(Seq::<u8>::empty()) =~= processed);
            assert(processed + wal_records(wal_bytes@) =~= wal_records(wal_bytes@));
            assert(entries_view(entries@) =~= Seq::<(Seq<u8>, Option<Seq<u8>>)>::empty());
        }
        loop
            invariant
                pos <= wal_bytes@.len(),
                fully_valid(wal_bytes@.subrange(0, pos as int)),
                wal_records(wal_bytes@.subrange(0, pos as int)) == processed,
                wal_records(wal_bytes@) == processed + wal_records(wal_bytes@.skip(pos as int)),
                wal_valid_len(wal_bytes@) == pos + wal_valid_len(wal_bytes@.skip(pos as int)),
                sorted_strict(entries_view(entries@)),
                records_bounded(entries_view(entries@)),
                map_of(entries_view(entries@)) == map_of(processed),
            ensures
                pos <= wal_bytes@.len(),
                fully_valid(wal_bytes@.subrange(0, pos as int)),
                wal_records(wal_bytes@) == processed,
                wal_valid_len(wal_bytes@) == pos,
                sorted_strict(entries_view(entries@)),
                records_bounded(entries_view(entries@)),
                map_of(entries_view(entries@)) == map_of(processed),
            decreases wal_bytes@.len() - pos,
        {
            match read_entry(&wal_bytes, pos) {
                ReadOutcome::Entry(key, stored, next) => {
                    proof {
                        lemma_wal_step(wal_bytes@, pos as int, key@, stored@, next as int);
                        assert(processed + (seq![(key@, stored@)] + wal_records(
                            wal_bytes@.skip(next as int),
                        )) =~= processed.push((key@, stored@)) + wal_records(
                            wal_bytes@.skip(next as int),
                        ));
                        lemma_map_of_push(processed, (key@, stored@));
                        lemma_usize_fits_length_prefix();
                        lemma_vec_len_bounded(&key);
                        if let Stored::Value(v) = &stored {
                            lemma_vec_len_bounded(v);
                        }
                    }
                    upsert(&mut entries, key, stored);
                    proof {
                        processed = processed.push((key@, stored@));
                    }
                    pos = next;
                }
                ReadOutcome::End => {
                    proof {
                        assert(wal_bytes@.skip(pos as int).len() == 0);
                        assert(wal_records(wal_bytes@.skip(pos as int)) =~= Seq::<
                            (Seq<u8>, Option<Seq<u8>>),
                        >::empty());
                        assert(wal_records(wal_bytes@) =~= processed);
                    }
                    break;
                }
                ReadOutcome::Corrupt => {
                    proof {
                        assert(wal_records(wal_bytes@.skip(pos as int)) =~= Seq::<
                            (Seq<u8>, Option<Seq<u8>>),
                        >::empty());
                        assert(wal_records(wal_bytes@) =~= processed);
                    }
                    break;
                }
            }
        }
        // Replay stopped: nothing past `pos` parses, so the valid prefix
        // ends exactly here and the tail is discarded.
        let mut wal = wal_bytes;
        wal.truncate(pos);
        MemTable { id, entries, wal }
    }

    /// Inserts a value for a key: appends the record to the write-ahead
    /// log, then upserts the ordered table.
    pub fn insert(&mut self, key: Vec<u8>, value: Vec<u8>)
        requires
            old(self).wf(),
        ensures
            final(self).wf(),
            final(self)@ == old(self)@.insert(key@, Some(value@)),
            final(self).wal@ == old(self).wal@ + encode_record(key@, Some(value@)),
            final(self).id == old(self).id,
    {
        let stored = Stored::Value(value);
        self.log_and_upsert(key, stored);
    }

    /// Removes a key by recording a tombstone: appends it to the
    /// write-ahead log, then upserts the ordered table.
    pub fn remove(&mut self, key: Vec<u8>)
        requires
            old(self).wf(),
        ensures
            final(self).wf(),
            final(self)@ == old(self)@.insert(key@, None),
            final(self).wal@ == old(self).wal@ + encode_record(key@, None),
            final(self).id == old(self).id,
    {
        self.log_and_upsert(key, Stored::Tombstone);
    }

    fn log_and_upsert(&mut self, key: Vec<u8>, stored: Stored)
        requires
            old(self).wf(),
        ensures
            final(self).wf(),
            final(self)@ == old(self)@.insert(key@, stored@),
            final(self).wal@ == old(self).wal@ + encode_record(key@, stored@),
            final(self).id == old(self).id,
    {
        proof {
            lemma_usize_fits_length_prefix();
            lemma_vec_len_bounded(&key);
            if let Stored::Value(v) = &stored {
                lemma_vec_len_bounded(v);
            }
        }
        write_entry(&mut self.wal, &key, &stored);
        proof {
            lemma_wal_append(old(self).wal@, key@, stored@);
            lemma_map_of_push(wal_records(old(self).wal@), (key@, stored@));
        }
        upsert(&mut self.entries, key, stored);
    }

    /// The number of distinct keys currently recorded.
    pub fn len(&self) -> (r: usize)
        requires
            self.wf(),
        ensures
            r == self@.dom().len(),
            r == self.entries@.len(),
    {
        proof {
            lemma_map_of_sorted_len(entries_view(self.entries@));
        }
        self.entries.len()
    }

    /// Looks the key up, telling apart a key never recorded, one whose
    /// last record is a tombstone, and one whose last record is a value.
    pub fn probe(&self, key: &Vec<u8>) -> (r: Probe)
        requires
            self.wf(),
        ensures
            r is Missing <==> !self@.contains_key(key@),
            r is Tombstone <==> (self@.contains_key(key@) && self@[key@] is None),
            r matches Probe::Value(v) ==> self@.contains_key(key@) && self@[key@] == Some(v@),
    {
        let ghost view = entries_view(self.entries@);
        let mut i: usize = 0;
        while i < self.entries.len()
            invariant
                self.wf(),
                i <= self.entries@.len(),
                view == entries_view(self.entries@),
                forall|j: int| 0 <= j < i ==> (#[trigger] view[j]).0 != key@,
            decreases self.entries@.len() - i,
        {
            let e = &self.entries[i];
            match key_cmp(&e.0, key) {
                KeyOrder::Equal => {
                    proof {
                        lemma_map_of_sorted(view, i as int);
                    }
                    match &e.1 {
                        Stored::Tombstone => {
                            return Probe::Tombstone;
                        }
                        Stored::Value(v) => {
                            let out = crate::format::copy_range(v, 0, v.len());
                            proof {
                                assert(out@ =~= v@);
                            }
                            return Probe::Value(out);
                        }
                    }
                }
                _ => {}
            }
            i = i + 1;
        }
        proof {
            lemma_map_of_absent(view, key@);
        }
        Probe::Missing
    }

    /// Returns the value recorded for the key, if its last recorded state
    /// is a value; `None` both for an absent key and for a tombstone.
    pub fn get(&self, key: &Vec<u8>) -> (r: Option<Vec<u8>>)
        requires
            self.wf(),
        ensures
            r matches Some(v) ==> self@.contains_key(key@) && self@[key@] == Some(v@),
            r is None ==> !self@.contains_key(key@) || self@[key@] is None,
    {
        match self.probe(key) {
            Probe::Value(v) => Some(v),
            _ => None,
        }
    }

    /// Encodes all entries in ascending key order: the bytes of the
    /// sorted table this MemTable flushes to. Consumes the table; its
    /// write-ahead log goes with it, and the caller unlinks the file only
    /// after the table's bytes are safely on disk.
    pub fn persist(self) -> (r: Vec<u8>)
        requires
            self.wf(),
        ensures
            r@ == encode_all(entries_view(self.entries@)),
            fully_valid(r@),
            wal_records(r@) == entries_view(self.entries@),
            sorted_strict(wal_records(r@)),
            map_of(wal_records(r@)) == self@,
    {
        let ghost view = entries_view(self.entries@);
        let mut out: Vec<u8> = Vec::new();
        let mut i: usize = 0;
        proof {
            assert(view.skip(0) =~= view);
        }
        while i < self.entries.len()
            invariant
                i <= self.entries@.len(),
                view == entries_view(self.entries@),
                records_bounded(view),
                sorted_strict(view),
                out@ + encode_all(view.skip(i as int)) == encode_all(view),
            decreases self.entries@.len() - i,
        {
            let e = &self.entries[i];
            write_entry(&mut out, &e.0, &e.1);
            proof {
                let s = view.skip(i as int);
                assert(s[0] == view[i as int]);
                assert(s.skip(1) =~= view.skip(i + 1));
                assert(encode_all(s) == encode_record(view[i as int].0, view[i as int].1)
                    + encode_all(view.skip(i + 1)));
                assert(out@ + encode_all(view.skip(i + 1)) =~= encode_all(view));
            }
            i = i + 1;
        }
        proof {
            assert(view.skip(view.len() as int) =~= Seq::<(Seq<u8>, Option<Seq<u8>>)>::empty());
            assert(encode_all(view.skip(view.len() as int)) =~= Seq::<u8>::empty());
            assert(out@ =~= encode_all(view));
            lemma_wal_of_encode_all(view);
        }
        out
    }
}

/// Recovery equality: replaying a well-formed MemTable's write-ahead log
/// yields exactly its map, and truncation removes nothing, so `recover`
/// on this table's log bytes (whose contract returns the replayed map
/// and truncates at the valid length) rebuilds this very table.
pub proof fn lemma_recovery_equality(m: MemTable)
    requires
        m.wf(),
    ensures
        map_of(wal_records(m.wal@)) == m@,
        wal_valid_len(m.wal@) == m.wal@.len(),
{
}

/// Corruption truncation: appending bytes that do not begin a
/// well-formed record to a fully valid write-ahead log changes nothing:
/// recovery replays the same records and truncates the log back to its
/// old length. (Appended bytes that happen to form complete records are
/// replayed instead: they are indistinguishable from real writes.)
pub proof fn lemma_corruption_truncation(wal: Seq<u8>, garbage: Seq<u8>)
    requires
        fully_valid(wal),
        parse_record(garbage) is None,
    ensures
        wal_valid_len(wal + garbage) == wal.len(),
        map_of(wal_records(wal + garbage)) == map_of(wal_records(wal)),
{
    crate::records::lemma_wal_concat(wal, garbage);
    assert(wal_records(wal) + wal_records(garbage) =~= wal_records(wal));
}

/// Anything held in a vector fits a 64-bit length prefix.
proof fn lemma_usize_fits_length_prefix()
    ensures
        usize::MAX < pow256(8),
{
    reveal_with_fuel(pow256, 9);
}

/// Inserts or replaces the entry for a key in a strictly ascending entry
/// vector, keeping it strictly ascending.
fn upsert(entries: &mut Vec<(Vec<u8>, Stored)>, key: Vec<u8>, stored: Stored)
    requires
        sorted_strict(entries_view(old(entries)@)),
        records_bounded(entries_view(old(entries)@)),
        key@.len() < pow256(8),
        stored@ is Some ==> stored@.unwrap().len() < pow256(8),
    ensures
        sorted_strict(entries_view(final(entries)@)),
        records_bounded(entries_view(final(entries)@)),
        map_of(entries_view(final(entries)@)) == map_of(entries_view(old(entries)@)).insert(
            key@,
            stored@,
        ),
{
    let ghost view = entries_view(entries@);
    let mut i: usize = 0;
    while i < entries.len()
        invariant
            i <= entries@.len(),
            entries@ == old(entries)@,
            view == entries_view(entries@),
            sorted_strict(view),
            records_bounded(view),
            key@.len() < pow256(8),
            stored@ is Some ==> stored@.unwrap().len() < pow256(8),
            forall|j: int| 0 <= j < i ==> lex_lt((#[trigger] view[j]).0, key@),
        decreases entries@.len() - i,
    {
        let e = &entries[i];
        match key_cmp(&e.0, &key) {
            KeyOrder::Less => {
                i = i + 1;
            }
            KeyOrder::Equal => {
                // Replace in place: the key set is unchanged.
                let ghost u = view.take(i as int);
                let ghost w = view.skip(i + 1);
                let ghost oldpair = view[i as int];
                entries[i] = (key, stored);
                proof {
                    let view2 = entries_view(entries@);
                    assert(view2[i as int] == (key@, stored@)) by {
                        assert(entries@[i as int].0@ == key@);
                    }
                    assert forall|j: int| 0 <= j < view.len() && j != i implies view2[j]
                        == view[j] by {}
                    assert forall|j: int|
                        0 <= j < view2.len() implies (#[trigger] view2[j]).0.len() < pow256(8) && (
                    view2[j].1 is Some ==> view2[j].1.unwrap().len() < pow256(8)) by {
                        if j != i {
                            assert(view2[j] == view[j]);
                        }
                    }
                    assert(records_bounded(view2));
                    assert forall|p: int, q: int|
                        0 <= p < q < view2.len() implies lex_lt(view2[p].0, view2[q].0) by {
                        assert(view[p].0 == view2[p].0 && view[q].0 == view2[q].0);
                    }
                    assert(sorted_strict(view2));
                    assert(view =~= u + seq![oldpair] + w);
                    assert(view2 =~= u + seq![(key@, stored@)] + w);
                    assert forall|j: int| 0 <= j < w.len() implies (#[trigger] w[j]).0 != key@ by {
                        assert(w[j] == view[i + 1 + j]);
                        assert(lex_lt(view[i as int].0, view[i + 1 + j].0));
                        lemma_lex_total(view[i as int].0, view[i + 1 + j].0);
                    }
                    lemma_map_of_insert_mid(u, (key@, stored@), w);
                    lemma_map_of_insert_mid(u, oldpair, w);
                    assert(map_of(view2) =~= map_of(view).insert(key@, stored@));
                }
                return ;
            }
            KeyOrder::Greater => {
                // First entry above the key: insert just before it.
                let ghost u = view.take(i as int);
                let ghost w = view.skip(i as int);
                entries.insert(i, (key, stored));
                proof {
                    let view2 = entries_view(entries@);
                    assert(view2 =~= u + seq![(key@, stored@)] + w);
                    assert forall|j: int| 0 <= j < w.len() implies lex_lt(key@, (#[trigger] w[j]).0) by {
                        assert(w[j] == view[i + j]);
                        if j > 0 {
                            assert(lex_lt(view[i as int].0, view[i + j].0));
                            lemma_lex_trans(key@, view[i as int].0, view[i + j].0);
                        }
                    }
                    assert forall|j: int| 0 <= j < w.len() implies (#[trigger] w[j]).0 != key@ by {
                        lemma_lex_total(key@, w[j].0);
                    }
                    assert(u + w =~= view);
                    lemma_map_of_insert_mid(u, (key@, stored@), w);
                    assert forall|p: int, q: int|
                        0 <= p < q < view2.len() implies lex_lt(view2[p].0, view2[q].0) by {
                        if q < i {
                            assert(view2[p] == view[p] && view2[q] == view[q]);
                        } else if p < i && q == i {
                            assert(view2[p] == view[p]);
                        } else if p < i && q > i {
                            assert(view2[p] == view[p] && view2[q] == view[q - 1]);
                        } else if p == i {
                            assert(view2[q] == view[q - 1]);
                        } else {
                            assert(view2[p] == view[p - 1] && view2[q] == view[q - 1]);
                        }
                    }
                    assert(sorted_strict(view2));
                    assert forall|j: int|
                        0 <= j < view2.len() implies (#[trigger] view2[j]).0.len() < pow256(8) && (
                    view2[j].1 is Some ==> view2[j].1.unwrap().len() < pow256(8)) by {
                        if j < i {
                            assert(view2[j] == view[j]);
                        } else if j > i {
                            assert(view2[j] == view[j - 1]);
                        }
                    }
                    assert(records_bounded(view2));
                }
                return ;
            }
        }
    }
    // Every existing key is below: append at the end.
    entries.push((key, stored));
    proof {
        let view2 = entries_view(entries@);
        assert(view2 =~= view.push((key@, stored@)));
        lemma_map_of_push(view, (key@, stored@));
        assert forall|p: int, q: int|
            0 <= p < q < view2.len() implies lex_lt(view2[p].0, view2[q].0) by {
            if q < view.len() {
                assert(view2[p] == view[p] && view2[q] == view[q]);
            } else {
                assert(view2[p] == view[p]);
            }
        }
        assert(sorted_strict(view2));
        assert forall|j: int|
            0 <= j < view2.len() implies (#[trigger] view2[j]).0.len() < pow256(8) && (view2[j].1
                is Some ==> view2[j].1.unwrap().len() < pow256(8)) by {
            if j < view.len() {
                assert(view2[j] == view[j]);
            }
        }
        assert(records_bounded(view2));
    }
}

} // verus!
