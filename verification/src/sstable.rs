//! The immutable on-disk sorted table.
//!
//! A sorted table's bytes hold records strictly ascending by key, one per
//! distinct key. Opening a table scans the bytes once and builds an
//! in-memory index from each key to the byte offset of its record, so a
//! point lookup decodes one record at its offset. Merging two tables
//! streams both in order and lets the younger table win on a shared key.

use vstd::prelude::*;

use crate::format::{parse_record, read_entry, write_entry, ReadOutcome};
use crate::records::{
    encode_all, fully_valid, lemma_map_of_absent, lemma_map_of_sorted, lemma_sorted_push,
    lemma_wal_of_encode_all, lemma_wal_records_bounded, lemma_wal_step, lemma_merge_recs_map,
    map_of, merge_recs, records_bounded, sorted_strict, wal_records, wal_valid_len,
};
use crate::memtable::entries_view;
use crate::{key_cmp, KeyOrder, Probe, StoreError, Stored};

verus! {

/// An immutable sorted table: its bytes, and an index from each key to
/// the byte offset of that key's record within them.
pub struct SSTable {
    /// The sequence id parsed from the table's filename suffix.
    pub id: u64,
    /// The table's bytes, exactly as persisted.
    pub data: Vec<u8>,
    /// One entry per record, in order: the key and the byte offset of
    /// the record inside `data`.
    pub index: Vec<(Vec<u8>, usize)>,
}

impl View for SSTable {
    type V = Map<Seq<u8>, Option<Seq<u8>>>;

    open spec fn view(&self) -> Map<Seq<u8>, Option<Seq<u8>>> {
        map_of(wal_records(self.data@))
    }
}

impl SSTable {
    /// The records the table's bytes hold.
    pub open spec fn records(&self) -> Seq<(Seq<u8>, Option<Seq<u8>>)> {
        wal_records(self.data@)
    }

    /// The table is well formed: every byte belongs to a record, keys
    /// strictly ascend, and the index names each record's key and the
    /// offset where that record parses.
    pub open spec fn wf(&self) -> bool {
        &&& fully_valid(self.data@)
        &&& sorted_strict(self.records())
        &&& self.index@.len() == self.records().len()
        &&& forall|i: int|
            0 <= i < self.index@.len() ==> {
                let off = (#[trigger] self.index@[i]).1 as int;
                &&& self.index@[i].0@ == self.records()[i].0
                &&& off <= self.data@.len()
                &&& parse_record(self.data@.skip(off)) is Some
                &&& parse_record(self.data@.skip(off)).unwrap().0 == self.records()[i].0
                &&& parse_record(self.data@.skip(off)).unwrap().1 == self.records()[i].1
            }
    }

    /// Opens a table from its bytes: scans them once, checks that keys
    /// strictly ascend, and builds the key-to-offset index. Fails on a
    /// torn record and on keys out of order, never on well-formed bytes.
    pub fn new(id: u64, data: Vec<u8>) -> (r: Result<SSTable, StoreError>)
        ensures
            r matches Ok(t) ==> t.wf() && t.id == id && t.data@ == data@,
            r is Ok <==> (fully_valid(data@) && sorted_strict(wal_records(data@))),
    {
        let mut index: Vec<(Vec<u8>, usize)> = Vec::new();
        let mut pos: usize = 0;
        let ghost mut processed: Seq<(Seq<u8>, Option<Seq<u8>>)> = Seq::empty();
        proof {
            assert(data@.subrange(0, 0) =~= Seq::<u8>::empty());
            assert(data@.skip(0) =~= data@);
            assert(wal_records(Seq::<u8>::empty()) =~= processed);
            assert(processed + wal_records(data@) =~= wal_records(data@));
        }
        loop
            invariant
                pos <= data@.len(),
                fully_valid(data@.subrange(0, pos as int)),
                wal_records(data@.subrange(0, pos as int)) == processed,
                wal_records(data@) == processed + wal_records(data@.skip(pos as int)),
                wal_valid_len(data@) == pos + wal_valid_len(data@.skip(pos as int)),
                sorted_strict(processed),
                index@.len() == processed.len(),
                forall|i: int|
                    0 <= i < index@.len() ==> {
                        let off = (#[trigger] index@[i]).1 as int;
                        &&& index@[i].0@ == processed[i].0
                        &&& off <= data@.len()
                        &&& parse_record(data@.skip(off)) is Some
                        &&& parse_record(data@.skip(off)).unwrap().0 == processed[i].0
                        &&& parse_record(data@.skip(off)).unwrap().1 == processed[i].1
                    },
            ensures
                pos == data@.len(),
                fully_valid(data@),
                wal_records(data@) == processed,
                sorted_strict(processed),
            decreases data@.len() - pos,
        {
            match read_entry(&data, pos) {
                ReadOutcome::Entry(key, stored, next) => {
                    proof {
                        lemma_wal_step(data@, pos as int, key@, stored@, next as int);
                    }
                    if index.len() > 0 {
                        let last = index.len() - 1;
                        match key_cmp(&index[last].0, &key) {
                            KeyOrder::Less => {}
                            _ => {
                                // Keys out of order or repeated: the
                                // bytes are no sorted table.
                                proof {
                                    let recs = wal_records(data@);
                                    let p = processed.len() - 1;
                                    let q = processed.len() as int;
                                    assert(recs[p] == processed[p]);
                                    assert(wal_records(data@.skip(pos as int))[0] == (
                                    key@,
                                    stored@,
                                    ));
                                    assert(recs[q] == (key@, stored@));
                                    assert(index@[p].0@ == processed[p].0);
                                    assert(!crate::lex_lt(recs[p].0, recs[q].0));
                                    assert(!sorted_strict(recs));
                                }
                                return Err(StoreError::Corrupt);
                            }
                        }
                    }
                    proof {
                        if processed.len() > 0 {
                            assert(index@[index@.len() - 1].0@ == processed.last().0);
                        }
                        lemma_sorted_push(processed, (key@, stored@));
                    }
                    index.push((key, pos));
                    pos = next;
                    proof {
                        processed = processed.push((key@, stored@));
                        assert(wal_records(data@) =~= processed + wal_records(
                            data@.skip(pos as int),
                        ));
                    }
                }
                ReadOutcome::End => {
                    proof {
                        assert(data@.skip(pos as int).len() == 0);
                        assert(wal_records(data@) =~= processed);
                    }
                    break;
                }
                ReadOutcome::Corrupt => {
                    // A torn or malformed record: the valid prefix ends
                    // before the bytes do.
                    proof {
                        assert(wal_valid_len(data@.skip(pos as int)) == 0);
                        assert(!fully_valid(data@));
                    }
                    return Err(StoreError::Corrupt);
                }
            }
        }
        Ok(SSTable { id, data, index })
    }

    /// Looks the key up, telling apart a key this table never recorded,
    /// one it recorded as deleted, and one it holds a value for.
    pub fn probe(&self, key: &Vec<u8>) -> (r: Probe)
        requires
            self.wf(),
        ensures
            r is Missing <==> !self@.contains_key(key@),
            r is Tombstone <==> (self@.contains_key(key@) && self@[key@] is None),
            r matches Probe::Value(v) ==> self@.contains_key(key@) && self@[key@] == Some(v@),
    {
        let mut i: usize = 0;
        while i < self.index.len()
            invariant
                self.wf(),
                i <= self.index@.len(),
                forall|j: int| 0 <= j < i ==> (#[trigger] self.index@[j]).0@ != key@,
            decreases self.index@.len() - i,
        {
            let e = &self.index[i];
            match key_cmp(&e.0, key) {
                KeyOrder::Equal => {
                    proof {
                        lemma_map_of_sorted(self.records(), i as int);
                    }
                    // Decode the record at its indexed offset.
                    match read_entry(&self.data, e.1) {
                        ReadOutcome::Entry(_k, stored, _next) => {
                            match stored {
                                Stored::Tombstone => {
                                    return Probe::Tombstone;
                                }
                                Stored::Value(v) => {
                                    return Probe::Value(v);
                                }
                            }
                        }
                        ReadOutcome::End => {
                            proof {
                                assert(parse_record(self.data@.skip(e.1 as int)) is Some);
                                assert(self.data@.skip(e.1 as int).len() == 0);
                                assert(false);
                            }
                            return Probe::Missing;
                        }
                        ReadOutcome::Corrupt => {
                            proof {
                                assert(false);
                            }
                            return Probe::Missing;
                        }
                    }
                }
                _ => {}
            }
            i = i + 1;
        }
        proof {
            assert forall|j: int| 0 <= j < self.records().len() implies (
            #[trigger] self.records()[j]).0 != key@ by {
                assert(self.index@[j].0@ == self.records()[j].0);
            }
            lemma_map_of_absent(self.records(), key@);
        }
        Probe::Missing
    }

    /// Returns the value this table holds for the key; `None` both for a
    /// key the table never recorded and for one it recorded as deleted.
    /// The read path tells the two apart through `probe`.
    pub fn get(&self, key: &Vec<u8>) -> (r: Option<Vec<u8>>)
        requires
            self.wf(),
        ensures
            r matches Some(v) ==> self@.contains_key(key@) && self@[key@] == Some(v@),
            r is None ==> !self@.contains_key(key@) || self@[key@] is None,
    {
        match self.probe(key) {
            Probe::Value(v) => Some(v),
            _ => None,
        }
    }

    /// Reads the table's records in ascending key order.
    pub fn scan(&self) -> (r: Vec<(Vec<u8>, Stored)>)
        requires
            self.wf(),
        ensures
            entries_view(r@) == self.records(),
    {
        let mut out: Vec<(Vec<u8>, Stored)> = Vec::new();
        let mut pos: usize = 0;
        let ghost mut processed: Seq<(Seq<u8>, Option<Seq<u8>>)> = Seq::empty();
        proof {
            assert(self.data@.subrange(0, 0) =~= Seq::<u8>::empty());
            assert(self.data@.skip(0) =~= self.data@);
            assert(wal_records(Seq::<u8>::empty()) =~= processed);
            assert(processed + wal_records(self.data@) =~= wal_records(self.data@));
            assert(entries_view(out@) =~= processed);
        }
        loop
            invariant
                self.wf(),
                pos <= self.data@.len(),
                fully_valid(self.data@.subrange(0, pos as int)),
                wal_records(self.data@.subrange(0, pos as int)) == processed,
                wal_records(self.data@) == processed + wal_records(self.data@.skip(pos as int)),
                wal_valid_len(self.data@) == pos + wal_valid_len(self.data@.skip(pos as int)),
                entries_view(out@) == processed,
            ensures
                wal_records(self.data@) == processed,
                entries_view(out@) == processed,
            decreases self.data@.len() - pos,
        {
            match read_entry(&self.data, pos) {
                ReadOutcome::Entry(key, stored, next) => {
                    proof {
                        lemma_wal_step(self.data@, pos as int, key@, stored@, next as int);
                    }
                    out.push((key, stored));
                    pos = next;
                    proof {
                        processed = processed.push((key@, stored@));
                        assert(entries_view(out@) =~= processed);
                        assert(wal_records(self.data@) =~= processed + wal_records(
                            self.data@.skip(pos as int),
                        ));
                    }
                }
                ReadOutcome::End => {
                    proof {
                        assert(self.data@.skip(pos as int).len() == 0);
                        assert(wal_records(self.data@) =~= processed);
                    }
                    break;
                }
                ReadOutcome::Corrupt => {
                    // Impossible: every byte of a well-formed table
                    // belongs to a record.
                    proof {
                        assert(false);
                    }
                    break;
                }
            }
        }
        out
    }

    /// Merges two sorted tables into a new one: records stream out
    /// ascending by key, and on a key both tables hold, the younger
    /// (second) table's record is the one emitted. Tombstones pass
    /// through untouched.
    pub fn merge(id: u64, old_table: &SSTable, new_table: &SSTable) -> (r: SSTable)
        requires
            old_table.wf(),
            new_table.wf(),
        ensures
            r.wf(),
            r.id == id,
            r.records() == merge_recs(old_table.records(), new_table.records()),
            r@ == old_table@.union_prefer_right(new_table@),
    {
        let a = old_table.scan();
        let b = new_table.scan();
        let merged = merge_entries(&a, &b);
        let data = encode_entries(&merged);
        let ghost dv = data@;
        proof {
            lemma_wal_records_bounded(old_table.data@);
            lemma_wal_records_bounded(new_table.data@);
            lemma_merge_recs_map(old_table.records(), new_table.records());
            lemma_wal_of_encode_all(entries_view(merged@));
        }
        match SSTable::new(id, data) {
            Ok(t) => t,
            Err(_) => {
                proof {
                    assert(false);
                }
                vstd::pervasive::unreached()
            }
        }
    }
}

/// Merge semantics: for every key, the merged table answers as the
/// younger table where the younger table recorded the key, and as the
/// older table otherwise; no other key appears. Tombstones pass through:
/// a key either table recorded as deleted stays recorded as deleted
/// unless the younger table overwrote it. The merged table is well
/// formed, so its keys strictly ascend with no duplicate. The hypothesis
/// is exactly what `SSTable::merge` ensures of its result.
pub proof fn lemma_merge_semantics(
    old_table: SSTable,
    new_table: SSTable,
    merged: SSTable,
    k: Seq<u8>,
)
    requires
        merged@ == old_table@.union_prefer_right(new_table@),
    ensures
        merged@.contains_key(k) <==> (old_table@.contains_key(k) || new_table@.contains_key(k)),
        new_table@.contains_key(k) ==> merged@.contains_key(k) && merged@[k] == new_table@[k],
        !new_table@.contains_key(k) && old_table@.contains_key(k) ==> merged@.contains_key(k)
            && merged@[k] == old_table@[k],
{
}

/// Copies one owned entry.
pub(crate) fn clone_entry(e: &(Vec<u8>, Stored)) -> (r: (Vec<u8>, Stored))
    ensures
        r.0@ == e.0@,
        r.1@ == e.1@,
{
    let key = crate::format::copy_range(&e.0, 0, e.0.len());
    proof {
        assert(key@ =~= e.0@);
    }
    let stored = match &e.1 {
        Stored::Tombstone => Stored::Tombstone,
        Stored::Value(v) => {
            let w = crate::format::copy_range(v, 0, v.len());
            proof {
                assert(w@ =~= v@);
            }
            Stored::Value(w)
        }
    };
    (key, stored)
}

/// The ordered two-way merge of two entry vectors; on a shared key the
/// second vector's entry wins.
fn merge_entries(a: &Vec<(Vec<u8>, Stored)>, b: &Vec<(Vec<u8>, Stored)>) -> (r: Vec<
    (Vec<u8>, Stored),
>)
    ensures
        entries_view(r@) == merge_recs(entries_view(a@), entries_view(b@)),
{
    let ghost av = entries_view(a@);
    let ghost bv = entries_view(b@);
    let mut out: Vec<(Vec<u8>, Stored)> = Vec::new();
    let mut i: usize = 0;
    let mut j: usize = 0;
    proof {
        assert(av.skip(0) =~= av);
        assert(bv.skip(0) =~= bv);
        assert(entries_view(out@) =~= Seq::<(Seq<u8>, Option<Seq<u8>>)>::empty());
        assert(entries_view(out@) + merge_recs(av, bv) =~= merge_recs(av, bv));
    }
    while i < a.len() || j < b.len()
        invariant
            i <= av.len(),
            j <= bv.len(),
            av == entries_view(a@),
            bv == entries_view(b@),
            entries_view(out@) + merge_recs(av.skip(i as int), bv.skip(j as int)) == merge_recs(
                av,
                bv,
            ),
        decreases av.len() - i + bv.len() - j,
    {
        let ghost sa = av.skip(i as int);
        let ghost sb = bv.skip(j as int);
        let ghost pre = entries_view(out@);
        proof {
            if i < av.len() {
                assert(sa[0] == av[i as int]);
                assert(sa.skip(1) =~= av.skip(i + 1));
            } else {
                assert(sa.len() == 0);
            }
            if j < bv.len() {
                assert(sb[0] == bv[j as int]);
                assert(sb.skip(1) =~= bv.skip(j + 1));
            } else {
                assert(sb.len() == 0);
            }
        }
        if i == a.len() {
            let e = clone_entry(&b[j]);
            out.push(e);
            proof {
                assert(entries_view(out@) =~= pre.push(bv[j as int]));
                assert(merge_recs(sa, sb) == sb);
                assert(sb =~= seq![bv[j as int]] + bv.skip(j + 1));
                assert(merge_recs(av.skip(i as int), bv.skip(j + 1)) == bv.skip(j + 1));
                assert(entries_view(out@) + merge_recs(av.skip(i as int), bv.skip(j + 1))
                    =~= merge_recs(av, bv));
            }
            j = j + 1;
        } else if j == b.len() {
            let e = clone_entry(&a[i]);
            out.push(e);
            proof {
                assert(entries_view(out@) =~= pre.push(av[i as int]));
                assert(merge_recs(sa, sb) == sa);
                assert(sa =~= seq![av[i as int]] + av.skip(i + 1));
                assert(merge_recs(av.skip(i + 1), bv.skip(j as int)) == av.skip(i + 1));
                assert(entries_view(out@) + merge_recs(av.skip(i + 1), bv.skip(j as int))
                    =~= merge_recs(av, bv));
            }
            i = i + 1;
        } else {
            match key_cmp(&a[i].0, &b[j].0) {
                KeyOrder::Equal => {
                    let e = clone_entry(&b[j]);
                    out.push(e);
                    proof {
                        assert(entries_view(out@) =~= pre.push(bv[j as int]));
                        assert(merge_recs(sa, sb) == seq![sb[0]] + merge_recs(
                            sa.skip(1),
                            sb.skip(1),
                        ));
                        assert(entries_view(out@) + merge_recs(av.skip(i + 1), bv.skip(j + 1))
                            =~= merge_recs(av, bv));
                    }
                    i = i + 1;
                    j = j + 1;
                }
                KeyOrder::Less => {
                    let e = clone_entry(&a[i]);
                    out.push(e);
                    proof {
                        assert(entries_view(out@) =~= pre.push(av[i as int]));
                        assert(merge_recs(sa, sb) == seq![sa[0]] + merge_recs(sa.skip(1), sb));
                        assert(entries_view(out@) + merge_recs(av.skip(i + 1), bv.skip(j as int))
                            =~= merge_recs(av, bv));
                    }
                    i = i + 1;
                }
                KeyOrder::Greater => {
                    let e = clone_entry(&b[j]);
                    out.push(e);
                    proof {
                        assert(entries_view(out@) =~= pre.push(bv[j as int]));
                        assert(merge_recs(sa, sb) == seq![sb[0]] + merge_recs(sa, sb.skip(1)));
                        assert(entries_view(out@) + merge_recs(av.skip(i as int), bv.skip(j + 1))
                            =~= merge_recs(av, bv));
                    }
                    j = j + 1;
                }
            }
        }
    }
    proof {
        assert(av.skip(i as int).len() == 0);
        assert(merge_recs(av.skip(i as int), bv.skip(j as int)) == bv.skip(j as int));
        assert(bv.skip(j as int) =~= Seq::<(Seq<u8>, Option<Seq<u8>>)>::empty());
        assert(entries_view(out@) =~= entries_view(out@) + Seq::<
            (Seq<u8>, Option<Seq<u8>>),
        >::empty());
    }
    out
}

/// Encodes a vector of entries one record after another.
pub(crate) fn encode_entries(entries: &Vec<(Vec<u8>, Stored)>) -> (r: Vec<u8>)
    ensures
        r@ == encode_all(entries_view(entries@)),
{
    let ghost view = entries_view(entries@);
    let mut out: Vec<u8> = Vec::new();
    let mut i: usize = 0;
    proof {
        assert(view.skip(0) =~= view);
    }
    while i < entries.len()
        invariant
            i <= entries@.len(),
            view == entries_view(entries@),
            out@ + encode_all(view.skip(i as int)) == encode_all(view),
        decreases entries@.len() - i,
    {
        let e = &entries[i];
        write_entry(&mut out, &e.0, &e.1);
        proof {
            let s = view.skip(i as int);
            assert(s[0] == view[i as int]);
            assert(s.skip(1) =~= view.skip(i + 1));
            assert(out@ + encode_all(view.skip(i + 1)) =~= encode_all(view));
        }
        i = i + 1;
    }
    proof {
        assert(view.skip(view.len() as int) =~= Seq::<(Seq<u8>, Option<Seq<u8>>)>::empty());
        assert(encode_all(view.skip(view.len() as int)) =~= Seq::<u8>::empty());
        assert(out@ =~= encode_all(view));
    }
    out
}

} // verus!
