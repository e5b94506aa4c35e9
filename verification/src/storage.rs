//! The storage façade: the public write and read paths.
//!
//! A write goes to the active in-memory table (which logs it first); when
//! that table reaches the configured threshold of distinct keys, it is
//! frozen onto the flush queue and a fresh table with the next sequence
//! id takes its place. A read probes the layers newest first and the
//! first layer that recorded the key decides.

use vstd::prelude::*;

use crate::engine::{
    lemma_probe_back_concat, memtable_maps, probe_back, sstable_maps, Engine,
};
use crate::records::{map_of, wal_records};
use crate::memtable::MemTable;
use crate::Probe;

verus! {

/// Where the store's files live and when the active table freezes.
pub struct Config {
    /// The directory that holds the sorted tables (and the writer lock).
    pub segments_path: String,
    /// The directory that holds the write-ahead logs.
    pub wal_path: String,
    /// The count of distinct keys at which the active table freezes.
    pub threshold: usize,
}

/// The store: the engine's layers, the configuration, and the two
/// monotone id counters that name write-ahead logs and sorted tables.
pub struct Storage {
    pub engine: Engine,
    pub config: Config,
    /// The active in-memory table's sequence id; its write-ahead log is
    /// named by it, and the next frozen table's successor takes the next.
    pub sequence_number: u64,
    /// The id the next flushed or merged table will take: above every
    /// table the engine holds.
    pub next_segment_id: u64,
}

impl Storage {
    /// What a read of the key returns in the current state.
    pub open spec fn spec_read(&self, k: Seq<u8>) -> Option<Seq<u8>> {
        self.engine.spec_read(k)
    }

    /// The store is well formed: the engine is, the threshold is
    /// positive, the active table carries the current sequence id, and
    /// the next segment id lies above every table.
    pub open spec fn wf(&self) -> bool {
        &&& self.engine.wf()
        &&& self.config.threshold >= 1
        &&& self.engine.active_memtable.id == self.sequence_number
        &&& self.engine.table_ids_below(self.next_segment_id)
    }

    /// Reads a key: probes the active table, the frozen tables newest
    /// first, the fresh sorted tables newest first, and then the
    /// compacted tables. The newest layer that recorded the key decides;
    /// a tombstone reads as nothing without consulting older layers.
    #[verifier::loop_isolation(false)]
    pub fn read(&self, key: &Vec<u8>) -> (r: Option<Vec<u8>>)
        requires
            self.wf(),
        ensures
            match r {
                Some(v) => self.spec_read(key@) == Some(v@),
                None => self.spec_read(key@) is None,
            },
    {
        let ghost s1m = sstable_maps(self.engine.sstables1@);
        let ghost s0m = sstable_maps(self.engine.sstables0@);
        let ghost mm = memtable_maps(self.engine.memtables@);
        let ghost am = seq![self.engine.active_memtable@];
        proof {
            assert(self.engine.layer_maps() == s1m + s0m + mm + am);
            lemma_probe_back_concat(s1m + s0m + mm, am, key@);
            lemma_probe_back_concat(s1m + s0m, mm, key@);
            lemma_probe_back_concat(s1m, s0m, key@);
        }
        match self.engine.active_memtable.probe(key) {
            Probe::Value(v) => {
                proof {
                    assert(am.last() == self.engine.active_memtable@);
                }
                return Some(v);
            }
            Probe::Tombstone => {
                proof {
                    assert(am.last() == self.engine.active_memtable@);
                }
                return None;
            }
            Probe::Missing => {
                proof {
                    assert(am.last() == self.engine.active_memtable@);
                    assert(am.drop_last() =~= Seq::<Map<Seq<u8>, Option<Seq<u8>>>>::empty());
                    assert(probe_back(Seq::<Map<Seq<u8>, Option<Seq<u8>>>>::empty(), key@)
                        is None);
                    assert(probe_back(am, key@) is None);
                }
            }
        }
        // Frozen in-memory tables, newest first.
        let mut t: usize = self.engine.memtables.len();
        proof {
            assert(mm.take(t as int) =~= mm);
        }
        while t > 0
            invariant
                self.wf(),
                t <= self.engine.memtables@.len(),
                mm == memtable_maps(self.engine.memtables@),
                probe_back(mm, key@) == probe_back(mm.take(t as int), key@),
            decreases t,
        {
            t = t - 1;
            proof {
                assert(mm.take(t + 1).last() == mm[t as int]);
                assert(mm.take(t + 1).drop_last() =~= mm.take(t as int));
            }
            match self.engine.memtables[t].probe(key) {
                Probe::Value(v) => {
                    return Some(v);
                }
                Probe::Tombstone => {
                    return None;
                }
                Probe::Missing => {}
            }
        }
        proof {
            assert(mm.take(0) =~= Seq::<Map<Seq<u8>, Option<Seq<u8>>>>::empty());
            assert(probe_back(mm, key@) is None);
        }
        // Fresh sorted tables, newest first.
        let mut t0: usize = self.engine.sstables0.len();
        proof {
            assert(s0m.take(t0 as int) =~= s0m);
        }
        while t0 > 0
            invariant
                self.wf(),
                t0 <= self.engine.sstables0@.len(),
                s0m == sstable_maps(self.engine.sstables0@),
                probe_back(s0m, key@) == probe_back(s0m.take(t0 as int), key@),
            decreases t0,
        {
            t0 = t0 - 1;
            proof {
                assert(s0m.take(t0 + 1).last() == s0m[t0 as int]);
                assert(s0m.take(t0 + 1).drop_last() =~= s0m.take(t0 as int));
            }
            match self.engine.sstables0[t0].probe(key) {
                Probe::Value(v) => {
                    return Some(v);
                }
                Probe::Tombstone => {
                    return None;
                }
                Probe::Missing => {}
            }
        }
        proof {
            assert(s0m.take(0) =~= Seq::<Map<Seq<u8>, Option<Seq<u8>>>>::empty());
            assert(probe_back(s0m, key@) is None);
        }
        // Compacted tables, newest first.
        let mut t1: usize = self.engine.sstables1.len();
        proof {
            assert(s1m.take(t1 as int) =~= s1m);
        }
        while t1 > 0
            invariant
                self.wf(),
                t1 <= self.engine.sstables1@.len(),
                s1m == sstable_maps(self.engine.sstables1@),
                probe_back(s1m, key@) == probe_back(s1m.take(t1 as int), key@),
            decreases t1,
        {
            t1 = t1 - 1;
            proof {
                assert(s1m.take(t1 + 1).last() == s1m[t1 as int]);
                assert(s1m.take(t1 + 1).drop_last() =~= s1m.take(t1 as int));
            }
            match self.engine.sstables1[t1].probe(key) {
                Probe::Value(v) => {
                    return Some(v);
                }
                Probe::Tombstone => {
                    return None;
                }
                Probe::Missing => {}
            }
        }
        proof {
            assert(s1m.take(0) =~= Seq::<Map<Seq<u8>, Option<Seq<u8>>>>::empty());
            assert(probe_back(s1m, key@) is None);
        }
        None
    }

    /// Inserts a value for a key. The write is logged and applied to the
    /// active table; if that table now holds the threshold count of
    /// distinct keys, it freezes onto the flush queue and a fresh table
    /// with the next sequence id takes its place.
    pub fn insert(&mut self, key: Vec<u8>, value: Vec<u8>)
        requires
            old(self).wf(),
            old(self).sequence_number < u64::MAX,
        ensures
            final(self).wf(),
            forall|k2: Seq<u8>|
                final(self).spec_read(k2) == if k2 == key@ {
                    Some(value@)
                } else {
                    old(self).spec_read(k2)
                },
            rotation_behavior(
                old(self),
                final(self),
                old(self).engine.active_memtable@.insert(key@, Some(value@)),
            ),
    {
        let ghost k = key@;
        let ghost s = Some(value@);
        self.engine.active_memtable.insert(key, value);
        proof {
            lemma_update_active(old(self).engine, self.engine, k, s);
        }
        self.rotate_if_full();
    }

    /// Removes a key by recording a tombstone, so that older state in
    /// persisted tables stays shadowed. Freezes the active table at the
    /// threshold exactly as an insert does.
    pub fn remove(&mut self, key: Vec<u8>)
        requires
            old(self).wf(),
            old(self).sequence_number < u64::MAX,
        ensures
            final(self).wf(),
            forall|k2: Seq<u8>|
                final(self).spec_read(k2) == if k2 == key@ {
                    None
                } else {
                    old(self).spec_read(k2)
                },
            rotation_behavior(
                old(self),
                final(self),
                old(self).engine.active_memtable@.insert(key@, None),
            ),
    {
        let ghost k = key@;
        self.engine.active_memtable.remove(key);
        proof {
            lemma_update_active(old(self).engine, self.engine, k, None);
        }
        self.rotate_if_full();
    }

    /// Freezes the active table when it has reached the threshold:
    /// pushes it onto the flush queue and installs a fresh empty table
    /// under the next sequence id. Readers see the old table either
    /// active or frozen, never both or neither.
    fn rotate_if_full(&mut self)
        requires
            old(self).wf(),
            old(self).sequence_number < u64::MAX,
        ensures
            final(self).wf(),
            forall|k2: Seq<u8>| final(self).spec_read(k2) == old(self).spec_read(k2),
            final(self).engine.sstables0@ == old(self).engine.sstables0@,
            final(self).engine.sstables1@ == old(self).engine.sstables1@,
            final(self).next_segment_id == old(self).next_segment_id,
            final(self).config == old(self).config,
            if old(self).engine.active_memtable@.dom().len() == old(self).config.threshold {
                &&& final(self).engine.memtables@ == old(self).engine.memtables@.push(
                    old(self).engine.active_memtable,
                )
                &&& final(self).engine.active_memtable@ == Map::<Seq<u8>, Option<Seq<u8>>>::empty()
                &&& final(self).engine.active_memtable.entries@.len() == 0
                &&& final(self).engine.active_memtable.wal@ == Seq::<u8>::empty()
                &&& final(self).sequence_number == old(self).sequence_number + 1
            } else {
                &&& final(self).engine.memtables@ == old(self).engine.memtables@
                &&& final(self).engine.active_memtable == old(self).engine.active_memtable
                &&& final(self).sequence_number == old(self).sequence_number
            },
    {
        if self.engine.active_memtable.len() == self.config.threshold {
            let new_id = self.sequence_number + 1;
            let mut fresh = MemTable::new(new_id);
            core::mem::swap(&mut self.engine.active_memtable, &mut fresh);
            self.engine.memtables.push(fresh);
            self.sequence_number = new_id;
            proof {
                let pre = old(self).engine;
                let post = self.engine;
                assert(memtable_maps(post.memtables@) =~= memtable_maps(pre.memtables@).push(
                    pre.active_memtable@,
                ));
                assert forall|k2: Seq<u8>|
                    probe_back(post.layer_maps(), k2) == probe_back(pre.layer_maps(), k2) by {
                    assert(post.layer_maps().last() == post.active_memtable@);
                    assert(!post.active_memtable@.contains_key(k2));
                    assert(post.layer_maps().drop_last() =~= pre.layer_maps());
                }
            }
        }
    }
}

/// How a write leaves the queue of tables: when the active table's map
/// (here `m2`, the map just after the write) reaches the threshold, it
/// freezes and a fresh one takes over; otherwise everything but the
/// active table's map stands still.
pub open spec fn rotation_behavior(pre: &Storage, post: &Storage, m2: Map<Seq<u8>, Option<Seq<u8>>>) -> bool {
    &&& post.engine.sstables0@ == pre.engine.sstables0@
    &&& post.engine.sstables1@ == pre.engine.sstables1@
    &&& post.next_segment_id == pre.next_segment_id
    &&& post.config == pre.config
    &&& if m2.dom().len() == pre.config.threshold {
        &&& post.engine.memtables@.len() == pre.engine.memtables@.len() + 1
        &&& post.engine.memtables@.last()@ == m2
        &&& forall|i: int|
            0 <= i < pre.engine.memtables@.len() ==> post.engine.memtables@[i]
                == pre.engine.memtables@[i]
        &&& post.engine.active_memtable@ == Map::<Seq<u8>, Option<Seq<u8>>>::empty()
        &&& post.sequence_number == pre.sequence_number + 1
    } else {
        &&& post.engine.memtables@ == pre.engine.memtables@
        &&& post.engine.active_memtable@ == m2
        &&& post.sequence_number == pre.sequence_number
    }
}

/// A decimal digit byte.
pub open spec fn is_digit(b: u8) -> bool {
    48 <= b <= 57
}

pub open spec fn all_digits(s: Seq<u8>) -> bool {
    forall|i: int| 0 <= i < s.len() ==> is_digit(#[trigger] s[i])
}

/// The number a string of decimal digit bytes denotes.
pub open spec fn digits_value(s: Seq<u8>) -> nat
    decreases s.len(),
{
    if s.len() == 0 {
        0
    } else {
        (digits_value(s.drop_last()) * 10 + (s.last() - 48)) as nat
    }
}

/// `10^k`.
pub open spec fn pow10(k: nat) -> nat
    decreases k,
{
    if k == 0 {
        1
    } else {
        10 * pow10((k - 1) as nat)
    }
}

proof fn lemma_digits_bound(s: Seq<u8>)
    requires
        all_digits(s),
    ensures
        digits_value(s) < pow10(s.len()),
    decreases s.len(),
{
    if s.len() > 0 {
        assert(all_digits(s.drop_last())) by {
            assert(forall|i: int| 0 <= i < s.len() - 1 ==> s.drop_last()[i] == s[i]);
        }
        lemma_digits_bound(s.drop_last());
        assert(digits_value(s) < pow10(s.len())) by (nonlinear_arith)
            requires
                digits_value(s) == digits_value(s.drop_last()) * 10 + (s.last() - 48),
                digits_value(s.drop_last()) < pow10((s.len() - 1) as nat),
                s.last() - 48 <= 9,
                pow10(s.len()) == 10 * pow10((s.len() - 1) as nat),
        {}
    }
}

/// The decimal digits of `n`, most significant first.
pub open spec fn dec_digits(n: nat) -> Seq<u8>
    decreases n,
{
    if n < 10 {
        seq![(48 + n) as u8]
    } else {
        dec_digits(n / 10).push((48 + n % 10) as u8)
    }
}

proof fn lemma_dec_digits(n: nat)
    ensures
        all_digits(dec_digits(n)),
        digits_value(dec_digits(n)) == n,
        dec_digits(n).len() >= 1,
    decreases n,
{
    if n < 10 {
        let s = dec_digits(n);
        assert(s.drop_last() =~= Seq::<u8>::empty());
        assert(digits_value(Seq::<u8>::empty()) == 0);
    } else {
        lemma_dec_digits(n / 10);
        let s = dec_digits(n);
        assert(s.drop_last() =~= dec_digits(n / 10));
        assert(s.last() == (48 + n % 10) as u8);
        assert(digits_value(s) == (n / 10) * 10 + n % 10);
        assert((n / 10) * 10 + n % 10 == n) by (nonlinear_arith);
        assert(all_digits(s)) by {
            assert(forall|i: int|
                0 <= i < s.len() - 1 ==> s[i] == #[trigger] dec_digits(n / 10)[i]);
        }
    }
}

proof fn lemma_dec_digits_len(n: nat, c: nat)
    requires
        n < pow10(c),
        c >= 1,
    ensures
        dec_digits(n).len() <= c,
    decreases n,
{
    if n < 10 {
    } else {
        if c == 1 {
            assert(pow10(1) == 10) by {
                reveal_with_fuel(pow10, 2);
            }
            assert(false);
        }
        assert(n / 10 < pow10((c - 1) as nat)) by (nonlinear_arith)
            requires
                n < pow10(c),
                pow10(c) == 10 * pow10((c - 1) as nat),
        {}
        lemma_dec_digits_len(n / 10, (c - 1) as nat);
    }
}

proof fn lemma_pow10_increases(a: nat, b: nat)
    requires
        a <= b,
    ensures
        pow10(a) <= pow10(b),
    decreases b,
{
    if a < b {
        lemma_pow10_increases(a, (b - 1) as nat);
    }
}

/// The name carries this prefix followed by a dash.
pub open spec fn matches_prefix(name: Seq<u8>, prefix: Seq<u8>) -> bool {
    &&& name.len() > prefix.len() + 1
    &&& name.take(prefix.len() as int) == prefix
    &&& name[prefix.len() as int] == 45u8
}

/// What follows the prefix and its dash.
pub open spec fn name_tail(name: Seq<u8>, prefix: Seq<u8>) -> Seq<u8> {
    name.skip(prefix.len() + 1 as int)
}

/// The name is `prefix-<id>` with a decimal id of at most nineteen
/// digits, so the id always fits an unsigned 64-bit integer.
pub open spec fn valid_id_name(name: Seq<u8>, prefix: Seq<u8>) -> bool {
    &&& matches_prefix(name, prefix)
    &&& all_digits(name_tail(name, prefix))
    &&& name_tail(name, prefix).len() <= 19
}

/// The id a valid name carries.
pub open spec fn name_id(name: Seq<u8>, prefix: Seq<u8>) -> nat {
    digits_value(name_tail(name, prefix))
}

/// Every valid name's id leaves room for a successor.
pub proof fn lemma_name_id_fits(name: Seq<u8>, prefix: Seq<u8>)
    requires
        valid_id_name(name, prefix),
    ensures
        name_id(name, prefix) < 10000000000000000000,
{
    lemma_digits_bound(name_tail(name, prefix));
    lemma_pow10_increases(name_tail(name, prefix).len(), 19);
    assert(pow10(19) == 10000000000000000000) by {
        reveal_with_fuel(pow10, 20);
    }
}

/// How one filename was read: not one of this store's files, one of ours
/// with a mangled id, or one of ours carrying this id.
#[derive(Debug)]
pub enum ParsedName {
    Other,
    Malformed,
    Id(u64),
}

/// Reads the id out of a filename of the shape `prefix-<id>`. A name
/// without the prefix and dash belongs to something else and is ignored;
/// one with them but without a well-formed id is malformed, which the
/// caller treats as fatal.
#[verifier::loop_isolation(false)]
#[verifier::rlimit(30)]
pub fn parse_file_id(name: &Vec<u8>, prefix: &Vec<u8>) -> (r: ParsedName)
    ensures
        r is Other <==> !matches_prefix(name@, prefix@),
        r is Malformed <==> (matches_prefix(name@, prefix@) && !valid_id_name(name@, prefix@)),
        r matches ParsedName::Id(v) ==> valid_id_name(name@, prefix@) && v == name_id(
            name@,
            prefix@,
        ),
{
    if name.len() <= prefix.len() {
        return ParsedName::Other;
    }
    if name.len() - prefix.len() <= 1 {
        return ParsedName::Other;
    }
    let mut i: usize = 0;
    while i < prefix.len()
        invariant
            i <= prefix@.len(),
            name@.len() > prefix@.len() + 1,
            name@.take(i as int) == prefix@.take(i as int),
        decreases prefix@.len() - i,
    {
        if name[i] != prefix[i] {
            proof {
                assert(name@.take(prefix@.len() as int)[i as int] != prefix@[i as int]);
            }
            return ParsedName::Other;
        }
        proof {
            assert(name@.take(i + 1) =~= name@.take(i as int).push(name@[i as int]));
            assert(prefix@.take(i + 1) =~= prefix@.take(i as int).push(prefix@[i as int]));
        }
        i = i + 1;
    }
    proof {
        assert(name@.take(prefix@.len() as int) =~= prefix@.take(prefix@.len() as int));
        assert(prefix@.take(prefix@.len() as int) =~= prefix@);
    }
    if name[prefix.len()] != 45 {
        return ParsedName::Other;
    }
    let start = prefix.len() + 1;
    let ghost tail = name@.skip(start as int);
    if name.len() - start > 19 {
        return ParsedName::Malformed;
    }
    let mut value: u64 = 0;
    let mut j: usize = start;
    proof {
        assert(tail.take(0) =~= Seq::<u8>::empty());
        reveal_with_fuel(pow10, 20);
    }
    while j < name.len()
        invariant
            start <= j <= name@.len(),
            name@.len() - start <= 19,
            tail == name@.skip(start as int),
            value == digits_value(tail.take(j - start)),
            all_digits(tail.take(j - start)),
            value < pow10((j - start) as nat),
        decreases name@.len() - j,
    {
        let b = name[j];
        if b < 48 || b > 57 {
            proof {
                assert(tail[j - start] == b);
                assert(!all_digits(tail));
            }
            return ParsedName::Malformed;
        }
        proof {
            assert(tail.take(j - start + 1) =~= tail.take(j - start).push(b));
            assert(tail.take(j - start + 1).drop_last() =~= tail.take(j - start));
            lemma_pow10_increases((j - start + 1) as nat, 19);
            assert(pow10(19) == 10000000000000000000) by {
                reveal_with_fuel(pow10, 20);
            }
            assert(value * 10 + (b - 48) < pow10((j - start + 1) as nat)) by (nonlinear_arith)
                requires
                    value < pow10((j - start) as nat),
                    b - 48 <= 9,
                    pow10((j - start + 1) as nat) == 10 * pow10((j - start) as nat),
            {}
        }
        value = value * 10 + ((b - 48) as u64);
        j = j + 1;
    }
    proof {
        assert(tail.take((name@.len() - start) as int) =~= tail);
    }
    ParsedName::Id(value)
}

/// Appends the decimal digits of `n`.
fn push_decimal(out: &mut Vec<u8>, n: u64)
    ensures
        final(out)@ == old(out)@ + dec_digits(n as nat),
    decreases n,
{
    if n < 10 {
        out.push(48 + (n as u8));
        proof {
            assert(out@ =~= old(out)@ + seq![(48 + n) as u8]);
        }
    } else {
        push_decimal(out, n / 10);
        out.push(48 + ((n % 10) as u8));
        proof {
            assert(out@ =~= old(out)@ + dec_digits((n / 10) as nat).push((48 + n % 10) as u8));
        }
    }
}

/// Builds the filename `prefix-<id>`; parsing it reads the id back.
pub fn file_name_for_id(prefix: &Vec<u8>, id: u64) -> (r: Vec<u8>)
    requires
        id < 10000000000000000000,
    ensures
        valid_id_name(r@, prefix@),
        name_id(r@, prefix@) == id,
{
    let mut out = crate::format::copy_range(prefix, 0, prefix.len());
    proof {
        assert(out@ =~= prefix@);
    }
    out.push(45);
    push_decimal(&mut out, id);
    proof {
        lemma_dec_digits(id as nat);
        assert(pow10(19) == 10000000000000000000) by {
            reveal_with_fuel(pow10, 20);
        }
        lemma_dec_digits_len(id as nat, 19);
        let full = prefix@ + seq![45u8] + dec_digits(id as nat);
        assert(out@ =~= full);
        assert(full.take(prefix@.len() as int) =~= prefix@);
        assert(full[prefix@.len() as int] == 45u8);
        assert(name_tail(full, prefix@) =~= dec_digits(id as nat));
    }
    out
}

/// The filename prefix of a sorted table: `sstable`.
pub open spec fn segment_prefix() -> Seq<u8> {
    seq![115u8, 115u8, 116u8, 97u8, 98u8, 108u8, 101u8]
}

/// The filename prefix of a write-ahead log: `write-ahead-log`.
pub open spec fn wal_prefix() -> Seq<u8> {
    seq![119u8, 114u8, 105u8, 116u8, 101u8, 45u8, 97u8, 104u8, 101u8, 97u8, 100u8, 45u8, 108u8, 111u8, 103u8]
}

/// The sorted-table filename prefix as bytes.
pub fn segment_prefix_vec() -> (r: Vec<u8>)
    ensures
        r@ == segment_prefix(),
{
    let v = vec![115u8, 115u8, 116u8, 97u8, 98u8, 108u8, 101u8];
    proof {
        assert(v@ =~= segment_prefix());
    }
    v
}

/// The write-ahead-log filename prefix as bytes.
pub fn wal_prefix_vec() -> (r: Vec<u8>)
    ensures
        r@ == wal_prefix(),
{
    let v = vec![119u8, 114u8, 105u8, 116u8, 101u8, 45u8, 97u8, 104u8, 101u8, 97u8, 100u8, 45u8, 108u8, 111u8, 103u8];
    proof {
        assert(v@ =~= wal_prefix());
    }
    v
}

/// Ids strictly ascend through the list.
pub open spec fn sorted_ids(files: Seq<(u64, Vec<u8>)>) -> bool {
    forall|i: int, j: int| 0 <= i < j < files.len() ==> (#[trigger] files[i]).0 < (#[trigger] files[j]).0
}

/// Some entry carries this id.
pub open spec fn has_id(files: Seq<(u64, Vec<u8>)>, x: u64) -> bool {
    exists|i: int| 0 <= i < files.len() && (#[trigger] files[i]).0 == x
}

/// Some entry is exactly this pair.
pub open spec fn has_pair(files: Seq<(u64, Vec<u8>)>, p: (u64, Vec<u8>)) -> bool {
    exists|i: int| 0 <= i < files.len() && #[trigger] files[i] == p
}

/// Puts one file into an id-sorted list, refusing a repeated id.
fn insert_sorted_by_id(files: &mut Vec<(u64, Vec<u8>)>, id: u64, bytes: Vec<u8>) -> (ok: bool)
    requires
        sorted_ids(old(files)@),
    ensures
        sorted_ids(final(files)@),
        ok <==> !has_id(old(files)@, id),
        !ok ==> final(files)@ == old(files)@,
        ok ==> final(files)@.len() == old(files)@.len() + 1,
        forall|x: u64| #[trigger]
            has_id(final(files)@, x) <==> ((ok && x == id) || has_id(old(files)@, x)),
        ok ==> has_id(final(files)@, id),
        forall|p: (u64, Vec<u8>)| #[trigger]
            has_pair(old(files)@, p) ==> has_pair(final(files)@, p),
        ok ==> has_pair(final(files)@, (id, bytes)),
        ok ==> forall|s: int|
            0 <= s < final(files)@.len() ==> (#[trigger] final(files)@[s] == (id, bytes)
                || has_pair(old(files)@, final(files)@[s])),
{
    let ghost view = files@;
    let mut i: usize = 0;
    while i < files.len() && files[i].0 < id
        invariant
            i <= files@.len(),
            files@ == old(files)@,
            view == files@,
            sorted_ids(view),
            forall|j: int| 0 <= j < i ==> (#[trigger] view[j]).0 < id,
        decreases files@.len() - i,
    {
        i = i + 1;
    }
    if i < files.len() && files[i].0 == id {
        proof {
            assert(view[i as int].0 == id);
            assert(has_id(view, id));
        }
        return false;
    }
    // `i` is the first position whose id lies above the new one.
    proof {
        assert forall|j: int| i <= j < view.len() implies id < (#[trigger] view[j]).0 by {
            assert(view[i as int].0 > id);
            if j > i {
                assert(view[i as int].0 < view[j].0);
            }
        }
        assert(!has_id(view, id)) by {
            if has_id(view, id) {
                let p = choose|p: int| 0 <= p < view.len() && (#[trigger] view[p]).0 == id;
                assert(false);
            }
        }
    }
    files.insert(i, (id, bytes));
    proof {
        let view2 = files@;
        let ghost u = view.take(i as int);
        let ghost w = view.skip(i as int);
        assert(view2 =~= u + seq![(id, bytes)] + w);
        assert(u + w =~= view);
        assert forall|p: int, q: int| 0 <= p < q < view2.len() implies (#[trigger] view2[p]).0 < (
        #[trigger] view2[q]).0 by {
            if q < i {
                assert(view2[p] == view[p] && view2[q] == view[q]);
            } else if p < i && q == i {
                assert(view2[p] == view[p]);
            } else if p < i && q > i {
                assert(view2[p] == view[p] && view2[q] == view[q - 1]);
            } else if p == i {
                assert(view2[q] == view[q - 1]);
            } else {
                assert(view2[p] == view[p - 1] && view2[q] == view[q - 1]);
            }
        }
        assert forall|x: u64| #[trigger]
            has_id(view2, x) implies (x == id || has_id(view, x)) by {
            let p = choose|p: int| 0 <= p < view2.len() && (#[trigger] view2[p]).0 == x;
            if p < i {
                assert(view[p].0 == x);
            } else if p > i {
                assert(view[p - 1].0 == x);
            }
        }
        assert forall|x: u64| (x == id || has_id(view, x)) implies #[trigger] has_id(
            view2,
            x,
        ) by {
            if x == id {
                assert(view2[i as int].0 == x);
            } else {
                let p = choose|p: int| 0 <= p < view.len() && (#[trigger] view[p]).0 == x;
                if p < i {
                    assert(view2[p].0 == x);
                } else {
                    assert(view2[p + 1].0 == x);
                }
            }
        }
        assert(view2[i as int].0 == id);
        assert(view2[i as int] == (id, bytes));
        assert(has_pair(view2, (id, bytes)));
        assert forall|p: (u64, Vec<u8>)| #[trigger]
            has_pair(view, p) implies has_pair(view2, p) by {
            let q = choose|q: int| 0 <= q < view.len() && #[trigger] view[q] == p;
            if q < i {
                assert(view2[q] == p);
            } else {
                assert(view2[q + 1] == p);
            }
        }
        assert forall|s: int|
            0 <= s < view2.len() implies (#[trigger] view2[s] == (id, bytes) || has_pair(
                view,
                view2[s],
            )) by {
            if s < i {
                assert(view[s] == view2[s]);
            } else if s > i {
                assert(view[s - 1] == view2[s]);
            }
        }
    }
    true
}

/// A name either belongs to something else or carries a well-formed id.
pub open spec fn good_name(name: Seq<u8>, prefix: Seq<u8>) -> bool {
    matches_prefix(name, prefix) ==> valid_id_name(name, prefix)
}

/// Every file of ours in the listing has a well-formed id, and no two
/// carry the same one.
pub open spec fn listing_good(files: Seq<(Vec<u8>, Vec<u8>)>, prefix: Seq<u8>) -> bool {
    &&& forall|i: int| 0 <= i < files.len() ==> good_name((#[trigger] files[i]).0@, prefix)
    &&& forall|i: int, j: int|
        0 <= i < j < files.len() && valid_id_name((#[trigger] files[i]).0@, prefix)
            && valid_id_name((#[trigger] files[j]).0@, prefix) ==> name_id(files[i].0@, prefix)
            != name_id(files[j].0@, prefix)
}

/// Collects `(name, contents)` pairs into an id-sorted list of the files
/// whose names carry the prefix, ignoring other names; fails on a
/// mangled id or a repeated one.
#[verifier::loop_isolation(false)]
#[verifier::rlimit(100)]
fn collect_by_id(files: &Vec<(Vec<u8>, Vec<u8>)>, prefix: &Vec<u8>) -> (r: (
    Result<Vec<(u64, Vec<u8>)>, crate::StoreError>,
    Ghost<Map<u64, int>>,
))
    ensures
        r.0 is Ok <==> listing_good(files@, prefix@),
        r.0 matches Ok(v) ==> sorted_ids(v@) && (forall|s: int|
            0 <= s < v@.len() ==> (#[trigger] v@[s]).0 < 10000000000000000000),
        // The ghost result witnesses, for each collected pair, which
        // listed file it came from.
        r.0 matches Ok(v) ==> (forall|s: int| #![trigger v@[s]]
            0 <= s < v@.len() ==> r.1@.contains_key(v@[s].0) && 0 <= r.1@[v@[s].0]
                < files@.len() && valid_id_name(files@[r.1@[v@[s].0]].0@, prefix@) && v@[s].0
                == name_id(files@[r.1@[v@[s].0]].0@, prefix@) as u64 && v@[s].1@
                == files@[r.1@[v@[s].0]].1@),
        r.0 matches Ok(v) ==> (forall|m: int|
            0 <= m < files@.len() && valid_id_name((#[trigger] files@[m]).0@, prefix@) ==> has_id(
                v@,
                name_id(files@[m].0@, prefix@) as u64,
            )),
{
    let mut acc: Vec<(u64, Vec<u8>)> = Vec::new();
    let mut i: usize = 0;
    // Which ids have been taken, and by which listed file.
    let ghost mut seen: Map<u64, int> = Map::empty();
    while i < files.len()
        invariant
            i <= files@.len(),
            sorted_ids(acc@),
            forall|m: int| 0 <= m < i ==> good_name((#[trigger] files@[m]).0@, prefix@),
            forall|x: u64| #[trigger]
                seen.contains_key(x) ==> 0 <= seen[x] < i && valid_id_name(
                    files@[seen[x]].0@,
                    prefix@,
                ) && name_id(files@[seen[x]].0@, prefix@) == x && x < 10000000000000000000,
            forall|m: int|
                0 <= m < i && valid_id_name((#[trigger] files@[m]).0@, prefix@)
                    ==> seen.contains_key(name_id(files@[m].0@, prefix@) as u64),
            forall|x: u64| #[trigger] has_id(acc@, x) <==> seen.contains_key(x),
            forall|s: int|
                0 <= s < acc@.len() ==> seen.contains_key((#[trigger] acc@[s]).0) && acc@[s].1@
                    == files@[seen[acc@[s].0]].1@,
            forall|m: int, m2: int|
                0 <= m < m2 < i && valid_id_name((#[trigger] files@[m]).0@, prefix@)
                    && valid_id_name((#[trigger] files@[m2]).0@, prefix@) ==> name_id(
                    files@[m].0@,
                    prefix@,
                ) != name_id(files@[m2].0@, prefix@),
            forall|s: int| 0 <= s < acc@.len() ==> (#[trigger] acc@[s]).0 < 10000000000000000000,
        decreases files@.len() - i,
    {
        let name = &files[i].0;
        match parse_file_id(name, prefix) {
            ParsedName::Other => {}
            ParsedName::Malformed => {
                proof {
                    assert(!good_name(files@[i as int].0@, prefix@));
                }
                return (Err(crate::StoreError::BadFilename), Ghost(seen));
            }
            ParsedName::Id(v) => {
                proof {
                    lemma_name_id_fits(name@, prefix@);
                }
                let bytes = crate::format::copy_range(&files[i].1, 0, files[i].1.len());
                proof {
                    assert(bytes@ =~= files@[i as int].1@);
                }
                let ghost bpair = (v, bytes);
                let ghost accpre = acc@;
                let ok = insert_sorted_by_id(&mut acc, v, bytes);
                if !ok {
                    // This id is already taken: two of our files carry it.
                    proof {
                        assert(has_id(accpre, v));
                        assert(seen.contains_key(v));
                        let m = seen[v];
                        assert(name_id(files@[m].0@, prefix@) == name_id(
                            files@[i as int].0@,
                            prefix@,
                        ));
                        assert(!listing_good(files@, prefix@));
                    }
                    return (Err(crate::StoreError::DuplicateId), Ghost(seen));
                }
                proof {
                    let ghost seenpre = seen;
                    seen = seen.insert(v, i as int);
                    assert(name_id(files@[i as int].0@, prefix@) as u64 == v);
                    assert forall|m: int, m2: int|
                        0 <= m < m2 < i + 1 && valid_id_name(
                            (#[trigger] files@[m]).0@,
                            prefix@,
                        ) && valid_id_name(
                            (#[trigger] files@[m2]).0@,
                            prefix@,
                        ) implies name_id(files@[m].0@, prefix@) != name_id(
                        files@[m2].0@,
                        prefix@,
                    ) by {
                        if m2 == i {
                            lemma_name_id_fits(files@[m].0@, prefix@);
                            if name_id(files@[m].0@, prefix@) == name_id(
                                files@[m2].0@,
                                prefix@,
                            ) {
                                assert(seenpre.contains_key(
                                    name_id(files@[m].0@, prefix@) as u64,
                                ));
                                assert(has_id(accpre, v));
                            }
                        }
                    }
                    assert forall|x: u64| #[trigger]
                        has_id(acc@, x) <==> seen.contains_key(x) by {
                        assert(has_id(acc@, x) <==> (x == v || has_id(accpre, x)));
                    }
                    assert forall|s: int|
                        0 <= s < acc@.len() implies (#[trigger] acc@[s]).0
                            < 10000000000000000000 by {
                        let x = acc@[s].0;
                        assert(has_id(acc@, x));
                        if x != v {
                            assert(has_id(accpre, x));
                            assert(seenpre.contains_key(x));
                        }
                    }
                    assert forall|s: int|
                        0 <= s < acc@.len() implies seen.contains_key((#[trigger] acc@[s]).0)
                            && acc@[s].1@ == files@[seen[acc@[s].0]].1@ by {
                        if acc@[s] == bpair {
                            assert(seen[v] == i as int);
                        } else {
                            assert(has_pair(accpre, acc@[s]));
                            let s2 = choose|s2: int|
                                0 <= s2 < accpre.len() && #[trigger] accpre[s2] == acc@[s];
                            assert(seenpre.contains_key(accpre[s2].0));
                            assert(acc@[s].0 != v) by {
                                if acc@[s].0 == v {
                                    assert(accpre[s2].0 == v);
                                    assert(has_id(accpre, v));
                                }
                            }
                        }
                    }
                }
            }
        }
        i = i + 1;
    }
    (Ok(acc), Ghost(seen))
}

/// Whether these bytes open as a sorted table: every byte belongs to a
/// record and keys strictly ascend.
pub open spec fn openable(bytes: Seq<u8>) -> bool {
    &&& crate::records::fully_valid(bytes)
    &&& crate::records::sorted_strict(crate::records::wal_records(bytes))
}

/// The files whose bytes open as sorted tables, in order: a torn table
/// (a flush the crash interrupted) is skipped, since its write-ahead log
/// still holds the data.
pub open spec fn kept_segments(segs: Seq<(u64, Vec<u8>)>) -> Seq<(u64, Vec<u8>)>
    decreases segs.len(),
{
    if segs.len() == 0 {
        segs
    } else if openable(segs.last().1@) {
        kept_segments(segs.drop_last()).push(segs.last())
    } else {
        kept_segments(segs.drop_last())
    }
}

/// Every openable listed segment appears among the kept ones.
proof fn lemma_kept_contains(segs: Seq<(u64, Vec<u8>)>, s: int)
    requires
        0 <= s < segs.len(),
        openable(segs[s].1@),
    ensures
        exists|p: int|
            0 <= p < kept_segments(segs).len() && #[trigger] kept_segments(segs)[p] == segs[s],
    decreases segs.len(),
{
    if s == segs.len() - 1 {
        assert(kept_segments(segs) == kept_segments(segs.drop_last()).push(segs.last()));
        assert(kept_segments(segs)[kept_segments(segs).len() - 1] == segs[s]);
    } else {
        assert(segs.drop_last()[s] == segs[s]);
        lemma_kept_contains(segs.drop_last(), s);
        let p = choose|p: int|
            0 <= p < kept_segments(segs.drop_last()).len() && #[trigger] kept_segments(
                segs.drop_last(),
            )[p] == segs[s];
        assert(kept_segments(segs)[p] == segs[s]);
    }
}

/// Every kept segment is one of the listed ones, and openable.
proof fn lemma_kept_elements(segs: Seq<(u64, Vec<u8>)>, p: int)
    requires
        0 <= p < kept_segments(segs).len(),
    ensures
        exists|s: int|
            0 <= s < segs.len() && (#[trigger] segs[s]) == kept_segments(segs)[p] && openable(
                segs[s].1@,
            ),
    decreases segs.len(),
{
    if segs.len() > 0 {
        let kd = kept_segments(segs.drop_last());
        if openable(segs.last().1@) && p == kept_segments(segs).len() - 1 {
            assert(kept_segments(segs) == kd.push(segs.last()));
            assert(segs[segs.len() - 1] == kept_segments(segs)[p]);
        } else {
            assert(kept_segments(segs)[p] == kd[p]);
            lemma_kept_elements(segs.drop_last(), p);
            let s = choose|s: int|
                0 <= s < segs.drop_last().len() && (#[trigger] segs.drop_last()[s]) == kd[p]
                    && openable(segs.drop_last()[s].1@);
            assert(segs[s] == segs.drop_last()[s]);
        }
    }
}

/// The store holds a live in-memory table with this id and this map:
/// frozen awaiting flush, or active.
pub open spec fn has_live_memtable(s: &Storage, id: u64, m: Map<Seq<u8>, Option<Seq<u8>>>) -> bool {
    ||| exists|j: int|
        0 <= j < s.engine.memtables@.len() && (#[trigger] s.engine.memtables@[j]).id == id
            && s.engine.memtables@[j]@ == m
    ||| (s.engine.active_memtable.id == id && s.engine.active_memtable@ == m)
}

/// The store holds a sorted table with this id and these bytes on the
/// young tier.
pub open spec fn has_table(s: &Storage, id: u64, data: Seq<u8>) -> bool {
    exists|p: int|
        0 <= p < s.engine.sstables0@.len() && (#[trigger] s.engine.sstables0@[p]).id == id
            && s.engine.sstables0@[p].data@ == data
}

/// This id and this map are the recovery of one of the listed
/// write-ahead logs.
pub open spec fn memtable_from_listing(
    id: u64,
    m: Map<Seq<u8>, Option<Seq<u8>>>,
    files: Seq<(Vec<u8>, Vec<u8>)>,
) -> bool {
    exists|i: int|
        0 <= i < files.len() && valid_id_name((#[trigger] files[i]).0@, wal_prefix()) && id
            == name_id(files[i].0@, wal_prefix()) as u64 && m == crate::records::map_of(
            crate::records::wal_records(files[i].1@),
        )
}

/// This id and these bytes are one of the listed openable
/// sorted-table files.
pub open spec fn table_from_listing(id: u64, data: Seq<u8>, files: Seq<(Vec<u8>, Vec<u8>)>) -> bool {
    exists|i: int|
        0 <= i < files.len() && valid_id_name((#[trigger] files[i]).0@, segment_prefix())
            && openable(files[i].1@) && id == name_id(files[i].0@, segment_prefix()) as u64
            && data == files[i].1@
}

/// No listed file carries the write-ahead-log prefix with a
/// well-formed id.
pub open spec fn no_listed_wal(files: Seq<(Vec<u8>, Vec<u8>)>) -> bool {
    forall|i: int| 0 <= i < files.len() ==> !valid_id_name((#[trigger] files[i]).0@, wal_prefix())
}

/// Opens each listed file as a sorted table on the young tier, skipping
/// the ones a crash left torn.
#[verifier::loop_isolation(false)]
pub fn load_sstables(segs: &Vec<(u64, Vec<u8>)>) -> (r: Vec<crate::sstable::SSTable>)
    requires
        sorted_ids(segs@),
    ensures
        r@.len() == kept_segments(segs@).len(),
        forall|p: int|
            0 <= p < r@.len() ==> (#[trigger] r@[p]).wf() && r@[p].id == kept_segments(
                segs@,
            )[p].0 && r@[p].data@ == kept_segments(segs@)[p].1@,
        forall|p: int, q: int| 0 <= p < q < r@.len() ==> (#[trigger] r@[p]).id < (#[trigger] r@[q]).id,
        forall|p: int|
            0 <= p < r@.len() ==> exists|m: int|
                0 <= m < segs@.len() && (#[trigger] r@[p]).id == segs@[m].0,
{
    let mut out: Vec<crate::sstable::SSTable> = Vec::new();
    let mut i: usize = 0;
    proof {
        assert(kept_segments(segs@.take(0)) =~= Seq::<(u64, Vec<u8>)>::empty());
    }
    while i < segs.len()
        invariant
            i <= segs@.len(),
            out@.len() == kept_segments(segs@.take(i as int)).len(),
            forall|p: int|
                0 <= p < out@.len() ==> (#[trigger] out@[p]).wf() && out@[p].id == kept_segments(
                    segs@.take(i as int),
                )[p].0 && out@[p].data@ == kept_segments(segs@.take(i as int))[p].1@,
            forall|p: int|
                0 <= p < out@.len() ==> exists|m: int|
                    0 <= m < i && (#[trigger] out@[p]).id == segs@[m].0,
            forall|p: int, q: int|
                0 <= p < q < out@.len() ==> (#[trigger] out@[p]).id < (#[trigger] out@[q]).id,
        decreases segs@.len() - i,
    {
        let ghost kpre = kept_segments(segs@.take(i as int));
        proof {
            assert(segs@.take(i + 1).drop_last() =~= segs@.take(i as int));
            assert(segs@.take(i + 1).last() == segs@[i as int]);
        }
        let bytes = crate::format::copy_range(&segs[i].1, 0, segs[i].1.len());
        proof {
            assert(bytes@ =~= segs@[i as int].1@);
        }
        match crate::sstable::SSTable::new(segs[i].0, bytes) {
            Ok(t) => {
                proof {
                    assert(openable(segs@[i as int].1@));
                    assert(kept_segments(segs@.take(i + 1)) =~= kpre.push(segs@[i as int]));
                    assert forall|p: int| 0 <= p < out@.len() implies (#[trigger] out@[p]).id
                        < segs@[i as int].0 by {
                        let m = choose|m: int| 0 <= m < i && (#[trigger] out@[p]).id == segs@[m].0;
                    }
                }
                out.push(t);
            }
            Err(_) => {
                proof {
                    assert(!openable(segs@[i as int].1@));
                    assert(kept_segments(segs@.take(i + 1)) =~= kpre);
                }
            }
        }
        i = i + 1;
    }
    proof {
        assert(segs@.take(segs@.len() as int) =~= segs@);
    }
    out
}

/// Recovers one in-memory table per write-ahead log, in id order; the
/// youngest becomes the active table, the rest stay frozen awaiting
/// flush. With no logs at all, a fresh empty table starts the store.
#[verifier::loop_isolation(false)]
pub fn load_memtables(wals: &Vec<(u64, Vec<u8>)>) -> (r: (MemTable, Vec<MemTable>))
    requires
        sorted_ids(wals@),
    ensures
        r.0.wf(),
        forall|i: int| 0 <= i < r.1@.len() ==> (#[trigger] r.1@[i]).wf(),
        forall|i: int, j: int|
            0 <= i < j < r.1@.len() ==> (#[trigger] r.1@[i]).id < (#[trigger] r.1@[j]).id,
        forall|i: int| 0 <= i < r.1@.len() ==> (#[trigger] r.1@[i]).id < r.0.id,
        if wals@.len() == 0 {
            &&& r.0.id == 0
            &&& r.0@ == Map::<Seq<u8>, Option<Seq<u8>>>::empty()
            &&& r.0.wal@ == Seq::<u8>::empty()
            &&& r.1@.len() == 0
        } else {
            &&& r.1@.len() == wals@.len() - 1
            &&& (forall|i: int|
                0 <= i < r.1@.len() ==> (#[trigger] r.1@[i]).id == wals@[i].0 && r.1@[i]@
                    == crate::records::map_of(crate::records::wal_records(wals@[i].1@)))
            &&& r.0.id == wals@.last().0
            &&& r.0@ == crate::records::map_of(crate::records::wal_records(wals@.last().1@))
        },
{
    let mut tables: Vec<MemTable> = Vec::new();
    let mut i: usize = 0;
    while i < wals.len()
        invariant
            i <= wals@.len(),
            tables@.len() == i,
            forall|j: int|
                0 <= j < i ==> (#[trigger] tables@[j]).wf() && tables@[j].id == wals@[j].0
                    && tables@[j]@ == crate::records::map_of(
                    crate::records::wal_records(wals@[j].1@),
                ),
        decreases wals@.len() - i,
    {
        let bytes = crate::format::copy_range(&wals[i].1, 0, wals[i].1.len());
        proof {
            assert(bytes@ =~= wals@[i as int].1@);
        }
        let m = MemTable::recover(wals[i].0, bytes);
        tables.push(m);
        i = i + 1;
    }
    match tables.pop() {
        Some(active) => (active, tables),
        None => (MemTable::new(0), tables),
    }
}


/// Builds a Storage: the paths, the threshold, and then the store
/// rebuilt from whatever files the directories hold.
pub struct StorageBuilder {
    pub config: Config,
}

impl StorageBuilder {
    /// Starts from the defaults: `./sstable` for the sorted tables,
    /// `./write-ahead-log` for the logs, and a threshold of 1024
    /// distinct keys.
    pub fn new() -> (r: StorageBuilder)
        ensures
            r.config.threshold == 1024,
            r.config.segments_path@ == "./sstable"@,
            r.config.wal_path@ == "./write-ahead-log"@,
    {
        StorageBuilder {
            config: Config {
                segments_path: "./sstable".to_string(),
                wal_path: "./write-ahead-log".to_string(),
                threshold: 1024,
            },
        }
    }

    /// Sets the directory that holds the sorted tables.
    pub fn segments_path(self, segments_path: String) -> (r: StorageBuilder)
        ensures
            r.config.segments_path == segments_path,
            r.config.wal_path == self.config.wal_path,
            r.config.threshold == self.config.threshold,
    {
        StorageBuilder {
            config: Config {
                segments_path,
                wal_path: self.config.wal_path,
                threshold: self.config.threshold,
            },
        }
    }

    /// Sets the directory that holds the write-ahead logs.
    pub fn wal_path(self, wal_path: String) -> (r: StorageBuilder)
        ensures
            r.config.wal_path == wal_path,
            r.config.segments_path == self.config.segments_path,
            r.config.threshold == self.config.threshold,
    {
        StorageBuilder {
            config: Config {
                segments_path: self.config.segments_path,
                wal_path,
                threshold: self.config.threshold,
            },
        }
    }

    /// Builds the store from the two directories' listings, each a
    /// `(filename, contents)` pair per file. Write-ahead logs are
    /// recovered in id order, the youngest becoming the active table;
    /// sorted-table files load onto the young tier in id order, a torn
    /// one skipped. Fails exactly when a listed name carries the store's
    /// prefix with a mangled id, or two files carry the same id.
    pub fn build(self, segment_files: &Vec<(Vec<u8>, Vec<u8>)>, wal_files: &Vec<(Vec<u8>, Vec<u8>)>)
        -> (r: Result<Storage, crate::StoreError>)
        requires
            self.config.threshold >= 1,
        ensures
            r is Ok <==> (listing_good(segment_files@, segment_prefix()) && listing_good(
                wal_files@,
                wal_prefix(),
            )),
            r matches Ok(s) ==> s.wf() && s.config == self.config && s.engine.sstables1@.len()
                == 0,
            // Every write-ahead log among the inputs lives on as an
            // in-memory table with its id and its replayed map; the
            // youngest is the active one.
            r matches Ok(s) ==> (forall|i: int|
                0 <= i < wal_files@.len() && valid_id_name(
                    (#[trigger] wal_files@[i]).0@,
                    wal_prefix(),
                ) ==> has_live_memtable(
                    &s,
                    name_id(wal_files@[i].0@, wal_prefix()) as u64,
                    map_of(wal_records(wal_files@[i].1@)),
                ) && name_id(wal_files@[i].0@, wal_prefix()) <= s.sequence_number),
            // Every openable sorted-table file among the inputs lives on
            // as a table with its id and its bytes.
            r matches Ok(s) ==> (forall|i: int|
                0 <= i < segment_files@.len() && valid_id_name(
                    (#[trigger] segment_files@[i]).0@,
                    segment_prefix(),
                ) && openable(segment_files@[i].1@) ==> has_table(
                    &s,
                    name_id(segment_files@[i].0@, segment_prefix()) as u64,
                    segment_files@[i].1@,
                )),
            // And nothing else lives in the store: every frozen table,
            // the active table, and every sorted table is exactly the
            // recovery of one listed file — with no listed log at all,
            // the store starts from one fresh empty table.
            r matches Ok(s) ==> (forall|j: int|
                0 <= j < s.engine.memtables@.len() ==> memtable_from_listing(
                    (#[trigger] s.engine.memtables@[j]).id,
                    s.engine.memtables@[j]@,
                    wal_files@,
                )),
            r matches Ok(s) ==> (memtable_from_listing(
                s.engine.active_memtable.id,
                s.engine.active_memtable@,
                wal_files@,
            ) || (no_listed_wal(wal_files@) && s.engine.active_memtable.id == 0
                && s.engine.active_memtable@ == Map::<Seq<u8>, Option<Seq<u8>>>::empty()
                && s.engine.active_memtable.wal@ == Seq::<u8>::empty()
                && s.engine.memtables@.len() == 0)),
            r matches Ok(s) ==> (forall|p: int|
                0 <= p < s.engine.sstables0@.len() ==> table_from_listing(
                    (#[trigger] s.engine.sstables0@[p]).id,
                    s.engine.sstables0@[p].data@,
                    segment_files@,
                )),
            // The counters start low enough that writes and flushes can
            // always take the next id.
            r matches Ok(s) ==> s.sequence_number < 10000000000000000000
                && s.next_segment_id <= 10000000000000000000,
    {
        let seg_prefix = segment_prefix_vec();
        let wal_pref = wal_prefix_vec();
        let (segs_result, seg_witness) = collect_by_id(segment_files, &seg_prefix);
        let ghost segw = seg_witness@;
        let segs = match segs_result {
            Ok(v) => v,
            Err(e) => {
                return Err(e);
            }
        };
        let (wals_result, wal_witness) = collect_by_id(wal_files, &wal_pref);
        let ghost walw = wal_witness@;
        let wals = match wals_result {
            Ok(v) => v,
            Err(e) => {
                return Err(e);
            }
        };
        let tables = load_sstables(&segs);
        let (active, frozen) = load_memtables(&wals);
        let next_segment_id: u64 = if tables.len() == 0 {
            0
        } else {
            proof {
                let p = tables@.len() - 1;
                let m = choose|m: int|
                    0 <= m < segs@.len() && (#[trigger] tables@[p]).id == segs@[m].0;
                assert(segs@[m].0 < 10000000000000000000);
            }
            tables[tables.len() - 1].id + 1
        };
        let sequence_number = active.id;
        let engine = Engine {
            active_memtable: active,
            memtables: frozen,
            sstables0: tables,
            sstables1: Vec::new(),
        };
        let store = Storage { engine, config: self.config, sequence_number, next_segment_id };
        proof {
            assert(sstable_maps(store.engine.sstables1@) =~= Seq::<
                Map<Seq<u8>, Option<Seq<u8>>>,
            >::empty());
            assert forall|i: int|
                0 <= i < store.engine.sstables0@.len() implies (
            #[trigger] store.engine.sstables0@[i]).id < next_segment_id by {
                if i < store.engine.sstables0@.len() - 1 {
                    assert(store.engine.sstables0@[i].id
                        < store.engine.sstables0@[store.engine.sstables0@.len() - 1].id);
                }
            }
            assert forall|i: int|
                0 <= i < wal_files@.len() && valid_id_name(
                    (#[trigger] wal_files@[i]).0@,
                    wal_prefix(),
                ) implies has_live_memtable(
                &store,
                name_id(wal_files@[i].0@, wal_prefix()) as u64,
                map_of(wal_records(wal_files@[i].1@)),
            ) && name_id(wal_files@[i].0@, wal_prefix()) <= store.sequence_number by {
                lemma_name_id_fits(wal_files@[i].0@, wal_prefix());
                let nid = name_id(wal_files@[i].0@, wal_prefix()) as u64;
                assert(has_id(wals@, nid));
                let s2 = choose|s2: int| 0 <= s2 < wals@.len() && (#[trigger] wals@[s2]).0 == nid;
                let m = walw[wals@[s2].0];
                lemma_name_id_fits(wal_files@[m].0@, wal_prefix());
                assert(m == i) by {
                    if m != i {
                        assert(name_id(wal_files@[m].0@, wal_prefix()) == name_id(
                            wal_files@[i].0@,
                            wal_prefix(),
                        ));
                    }
                }
                assert(wals@[s2].1@ == wal_files@[i].1@);
                if s2 < wals@.len() - 1 {
                    assert(store.engine.memtables@[s2].id == wals@[s2].0
                        && store.engine.memtables@[s2]@ == map_of(
                        wal_records(wals@[s2].1@),
                    ));
                } else {
                    assert(store.engine.active_memtable.id == wals@.last().0
                        && store.engine.active_memtable@ == map_of(
                        wal_records(wals@.last().1@),
                    ));
                }
                assert(wals@[s2].0 <= wals@.last().0) by {
                    if s2 < wals@.len() - 1 {
                        assert(wals@[s2].0 < wals@[wals@.len() - 1].0);
                    }
                }
            }
            assert forall|i: int|
                0 <= i < segment_files@.len() && valid_id_name(
                    (#[trigger] segment_files@[i]).0@,
                    segment_prefix(),
                ) && openable(segment_files@[i].1@) implies has_table(
                &store,
                name_id(segment_files@[i].0@, segment_prefix()) as u64,
                segment_files@[i].1@,
            ) by {
                lemma_name_id_fits(segment_files@[i].0@, segment_prefix());
                let nid = name_id(segment_files@[i].0@, segment_prefix()) as u64;
                assert(has_id(segs@, nid));
                let s2 = choose|s2: int| 0 <= s2 < segs@.len() && (#[trigger] segs@[s2]).0 == nid;
                let m = segw[segs@[s2].0];
                lemma_name_id_fits(segment_files@[m].0@, segment_prefix());
                assert(m == i) by {
                    if m != i {
                        assert(name_id(segment_files@[m].0@, segment_prefix()) == name_id(
                            segment_files@[i].0@,
                            segment_prefix(),
                        ));
                    }
                }
                assert(segs@[s2].1@ == segment_files@[i].1@);
                lemma_kept_contains(segs@, s2);
                let p = choose|p: int|
                    0 <= p < kept_segments(segs@).len() && #[trigger] kept_segments(segs@)[p]
                        == segs@[s2];
                assert(store.engine.sstables0@[p].id == nid
                    && store.engine.sstables0@[p].data@ == segment_files@[i].1@);
            }
            // Backward: every frozen table is one listed log's recovery.
            assert forall|j: int|
                0 <= j < store.engine.memtables@.len() implies memtable_from_listing(
                (#[trigger] store.engine.memtables@[j]).id,
                store.engine.memtables@[j]@,
                wal_files@,
            ) by {
                assert(store.engine.memtables@[j].id == wals@[j].0
                    && store.engine.memtables@[j]@ == map_of(wal_records(wals@[j].1@)));
                assert(wals@[j] == wals@[j]);
                let m = walw[wals@[j].0];
                lemma_name_id_fits(wal_files@[m].0@, wal_prefix());
                assert(0 <= m < wal_files@.len() && valid_id_name(
                    wal_files@[m].0@,
                    wal_prefix(),
                ) && store.engine.memtables@[j].id == name_id(
                    wal_files@[m].0@,
                    wal_prefix(),
                ) as u64 && store.engine.memtables@[j]@ == map_of(
                    wal_records(wal_files@[m].1@),
                ));
            }
            // Backward: the active table is the youngest listed log's
            // recovery, or a fresh empty table when nothing is listed.
            if wals@.len() == 0 {
                assert forall|i: int| 0 <= i < wal_files@.len() implies !valid_id_name(
                    (#[trigger] wal_files@[i]).0@,
                    wal_prefix(),
                ) by {
                    if valid_id_name(wal_files@[i].0@, wal_prefix()) {
                        assert(has_id(wals@, name_id(wal_files@[i].0@, wal_prefix()) as u64));
                        let s2 = choose|s2: int|
                            0 <= s2 < wals@.len() && (#[trigger] wals@[s2]).0 == name_id(
                                wal_files@[i].0@,
                                wal_prefix(),
                            ) as u64;
                        assert(false);
                    }
                }
                assert(no_listed_wal(wal_files@));
            } else {
                let s2 = wals@.len() - 1;
                assert(wals@[s2] == wals@[s2]);
                let m = walw[wals@[s2].0];
                lemma_name_id_fits(wal_files@[m].0@, wal_prefix());
                assert(store.engine.active_memtable.id == wals@.last().0
                    && store.engine.active_memtable@ == map_of(wal_records(wals@.last().1@)));
                assert(wals@.last() == wals@[s2]);
                assert(0 <= m < wal_files@.len() && valid_id_name(
                    wal_files@[m].0@,
                    wal_prefix(),
                ) && store.engine.active_memtable.id == name_id(
                    wal_files@[m].0@,
                    wal_prefix(),
                ) as u64 && store.engine.active_memtable@ == map_of(
                    wal_records(wal_files@[m].1@),
                ));
                assert(memtable_from_listing(
                    store.engine.active_memtable.id,
                    store.engine.active_memtable@,
                    wal_files@,
                ));
            }
            // Backward: every sorted table is one listed openable file.
            assert forall|p: int|
                0 <= p < store.engine.sstables0@.len() implies table_from_listing(
                (#[trigger] store.engine.sstables0@[p]).id,
                store.engine.sstables0@[p].data@,
                segment_files@,
            ) by {
                assert(store.engine.sstables0@[p].id == kept_segments(segs@)[p].0
                    && store.engine.sstables0@[p].data@ == kept_segments(segs@)[p].1@);
                lemma_kept_elements(segs@, p);
                let s2 = choose|s2: int|
                    0 <= s2 < segs@.len() && (#[trigger] segs@[s2]) == kept_segments(segs@)[p]
                        && openable(segs@[s2].1@);
                let m = segw[segs@[s2].0];
                lemma_name_id_fits(segment_files@[m].0@, segment_prefix());
                assert(0 <= m < segment_files@.len() && valid_id_name(
                    segment_files@[m].0@,
                    segment_prefix(),
                ) && openable(segment_files@[m].1@) && store.engine.sstables0@[p].id == name_id(
                    segment_files@[m].0@,
                    segment_prefix(),
                ) as u64 && store.engine.sstables0@[p].data@ == segment_files@[m].1@);
            }
            // The counters fit under the id ceiling.
            if wals@.len() > 0 {
                assert(wals@[wals@.len() - 1].0 < 10000000000000000000);
            }
            if store.engine.sstables0@.len() > 0 {
                let p = store.engine.sstables0@.len() - 1;
                assert(store.engine.sstables0@[p] == store.engine.sstables0@[p]);
                let m2 = choose|m2: int|
                    0 <= m2 < segs@.len() && (#[trigger] store.engine.sstables0@[p]).id
                        == segs@[m2].0;
                assert(segs@[m2].0 < 10000000000000000000);
            }
        }
        Ok(store)
    }
}

impl Default for StorageBuilder {
    /// The same defaults as `new`.
    fn default() -> (r: StorageBuilder)
        ensures
            r.config.threshold == 1024,
            r.config.segments_path@ == "./sstable"@,
            r.config.wal_path@ == "./write-ahead-log"@,
    {
        StorageBuilder::new()
    }
}

impl Storage {
    /// A builder with the default configuration.
    pub fn builder() -> (r: StorageBuilder)
        ensures
            r.config.threshold == 1024,
            r.config.segments_path@ == "./sstable"@,
            r.config.wal_path@ == "./write-ahead-log"@,
    {
        StorageBuilder::new()
    }

    /// A fresh empty store under the default configuration: nothing
    /// recorded, every read empty, both id counters at zero.
    pub fn new() -> (r: Storage)
        ensures
            r.wf(),
            forall|k: Seq<u8>| r.spec_read(k) is None,
            r.config.threshold == 1024,
            r.sequence_number == 0,
            r.next_segment_id == 0,
            r.engine.memtables@.len() == 0,
            r.engine.sstables0@.len() == 0,
            r.engine.sstables1@.len() == 0,
            r.engine.active_memtable.id == 0,
            r.engine.active_memtable@ == Map::<Seq<u8>, Option<Seq<u8>>>::empty(),
            r.engine.active_memtable.wal@ == Seq::<u8>::empty(),
    {
        let builder = StorageBuilder::new();
        let active = MemTable::new(0);
        let store = Storage {
            engine: Engine {
                active_memtable: active,
                memtables: Vec::new(),
                sstables0: Vec::new(),
                sstables1: Vec::new(),
            },
            config: builder.config,
            sequence_number: 0,
            next_segment_id: 0,
        };
        proof {
            assert forall|k: Seq<u8>| store.spec_read(k) is None by {
                let lm = store.engine.layer_maps();
                assert(lm.last() == store.engine.active_memtable@);
                assert(!store.engine.active_memtable@.contains_key(k));
                assert(lm.drop_last() =~= Seq::<Map<Seq<u8>, Option<Seq<u8>>>>::empty());
                assert(probe_back(Seq::<Map<Seq<u8>, Option<Seq<u8>>>>::empty(), k) is None);
            }
        }
        store
    }
}

/// A write to the active table changes every layered read of that key to
/// the stored outcome and no other key's read at all.
proof fn lemma_update_active(pre: Engine, post: Engine, k: Seq<u8>, s: Option<Seq<u8>>)
    requires
        post.active_memtable@ == pre.active_memtable@.insert(k, s),
        post.memtables@ == pre.memtables@,
        post.sstables0@ == pre.sstables0@,
        post.sstables1@ == pre.sstables1@,
    ensures
        forall|k2: Seq<u8>|
            probe_back(post.layer_maps(), k2) == if k2 == k {
                Some(s)
            } else {
                probe_back(pre.layer_maps(), k2)
            },
{
    assert forall|k2: Seq<u8>|
        probe_back(post.layer_maps(), k2) == if k2 == k {
            Some(s)
        } else {
            probe_back(pre.layer_maps(), k2)
        } by {
        assert(post.layer_maps().last() == post.active_memtable@);
        assert(pre.layer_maps().last() == pre.active_memtable@);
        assert(post.layer_maps().drop_last() =~= pre.layer_maps().drop_last());
        if k2 == k {
            assert(post.active_memtable@.contains_key(k2));
        } else {
            assert(post.active_memtable@.contains_key(k2) <==> pre.active_memtable@.contains_key(
                k2,
            ));
        }
    }
}



/// Threshold flush, one write at a time. Count the writes to pairwise
/// distinct keys since the store was empty: while the active table holds
/// that count modulo the threshold, one more such write keeps it so, and
/// freezes exactly one more table precisely when the count reaches a
/// multiple of the threshold. The hypothesis is what one `insert` (or
/// `remove`) ensures; `flush_oldest` then moves frozen tables one for
/// one onto the young tier. Composed, after `N x threshold` writes to
/// distinct keys from an empty store and a drained queue, exactly `N`
/// young tables stand and the active table is empty.
pub proof fn lemma_threshold_flush(
    pre: Storage,
    post: Storage,
    k: Seq<u8>,
    v: Option<Seq<u8>>,
    n: nat,
)
    requires
        pre.wf(),
        !pre.engine.active_memtable@.contains_key(k),
        pre.engine.active_memtable@.dom().len() == n % (pre.config.threshold as nat),
        rotation_behavior(&pre, &post, pre.engine.active_memtable@.insert(k, v)),
    ensures
        post.engine.active_memtable@.dom().len() == (n + 1) % (pre.config.threshold as nat),
        post.engine.memtables@.len() == pre.engine.memtables@.len() + (if (n + 1) % (
        pre.config.threshold as nat) == 0 {
            1int
        } else {
            0int
        }),
        post.engine.sstables0@.len() == pre.engine.sstables0@.len(),
{
    let t = pre.config.threshold as nat;
    let m0 = pre.engine.active_memtable@;
    let m2 = m0.insert(k, v);
    crate::records::lemma_map_of_sorted_len(
        crate::memtable::entries_view(pre.engine.active_memtable.entries@),
    );
    assert(m2.dom() =~= m0.dom().insert(k));
    vstd::set::axiom_set_insert_len(m0.dom(), k);
    assert(m2.dom().len() == n % t + 1);
    assert(0 < t);
    if n % t + 1 == t {
        assert((n + 1) % t == 0) by {
            vstd::arithmetic::div_mod::lemma_add_mod_noop(n as int, 1, t as int);
            if t == 1 {
                vstd::arithmetic::div_mod::lemma_mod_self_0(1);
            } else {
                vstd::arithmetic::div_mod::lemma_small_mod(1, t);
            }
            vstd::arithmetic::div_mod::lemma_mod_self_0(t as int);
        }
        assert(Map::<Seq<u8>, Option<Seq<u8>>>::empty().dom() =~= Set::<Seq<u8>>::empty());
    } else {
        assert((n + 1) % t == n % t + 1) by {
            vstd::arithmetic::div_mod::lemma_add_mod_noop(n as int, 1, t as int);
            vstd::arithmetic::div_mod::lemma_small_mod(1, t);
            vstd::arithmetic::div_mod::lemma_small_mod((n % t + 1) as nat, t);
        }
    }
}


/// Some position holds this id.
pub open spec fn id_among(ids: Seq<u64>, x: u64) -> bool {
    exists|i: int| 0 <= i < ids.len() && (#[trigger] ids[i]) == x
}

/// Two strictly ascending id sequences with the same members are equal.
proof fn lemma_ascending_same_members(a: Seq<u64>, b: Seq<u64>)
    requires
        forall|i: int, j: int| 0 <= i < j < a.len() ==> a[i] < a[j],
        forall|i: int, j: int| 0 <= i < j < b.len() ==> b[i] < b[j],
        forall|x: u64| #[trigger] id_among(a, x) <==> id_among(b, x),
    ensures
        a == b,
    decreases a.len(),
{
    if a.len() == 0 {
        if b.len() > 0 {
            assert(id_among(b, b[0]));
            assert(id_among(a, b[0]));
            let i = choose|i: int| 0 <= i < a.len() && (#[trigger] a[i]) == b[0];
            assert(false);
        }
        assert(a =~= b);
    } else if b.len() == 0 {
        assert(id_among(a, a[0]));
        assert(id_among(b, a[0]));
        let j = choose|j: int| 0 <= j < b.len() && (#[trigger] b[j]) == a[0];
        assert(false);
    } else {
        let la = a[a.len() - 1];
        let lb = b[b.len() - 1];
        assert(id_among(a, la));
        assert(id_among(b, la));
        let j = choose|j: int| 0 <= j < b.len() && (#[trigger] b[j]) == la;
        assert(la <= lb) by {
            if j < b.len() - 1 {
                assert(b[j] < b[b.len() - 1]);
            }
        }
        assert(id_among(b, lb));
        assert(id_among(a, lb));
        let i = choose|i: int| 0 <= i < a.len() && (#[trigger] a[i]) == lb;
        assert(lb <= la) by {
            if i < a.len() - 1 {
                assert(a[i] < a[a.len() - 1]);
            }
        }
        assert(la == lb);
        let ad = a.drop_last();
        let bd = b.drop_last();
        assert forall|x: u64| #[trigger] id_among(ad, x) implies id_among(bd, x) by {
            let i2 = choose|i2: int| 0 <= i2 < ad.len() && (#[trigger] ad[i2]) == x;
            assert(a[i2] == x && x < la);
            assert(id_among(a, x));
            assert(id_among(b, x));
            let j2 = choose|j2: int| 0 <= j2 < b.len() && (#[trigger] b[j2]) == x;
            assert(j2 < b.len() - 1);
            assert(bd[j2] == x);
        }
        assert forall|x: u64| #[trigger] id_among(bd, x) implies id_among(ad, x) by {
            let j2 = choose|j2: int| 0 <= j2 < bd.len() && (#[trigger] bd[j2]) == x;
            assert(b[j2] == x && x < lb);
            assert(id_among(b, x));
            assert(id_among(a, x));
            let i2 = choose|i2: int| 0 <= i2 < a.len() && (#[trigger] a[i2]) == x;
            assert(i2 < a.len() - 1);
            assert(ad[i2] == x);
        }
        lemma_ascending_same_members(ad, bd);
        assert forall|i2: int| 0 <= i2 < a.len() implies a[i2] == b[i2] by {
            if i2 < a.len() - 1 {
                assert(ad[i2] == a[i2]);
                assert(bd[i2] == b[i2]);
            }
        }
        assert(a =~= b);
    }
}

/// The segment listing holds exactly a well-formed store's sorted
/// tables: deep tier then young tier, each under a correct name.
pub open spec fn segment_listing_of(files: Seq<(Vec<u8>, Vec<u8>)>, s: &Storage) -> bool {
    &&& files.len() == s.engine.sstables1@.len() + s.engine.sstables0@.len()
    &&& forall|i: int|
        0 <= i < s.engine.sstables1@.len() ==> valid_id_name(
            (#[trigger] files[i]).0@,
            segment_prefix(),
        ) && name_id(files[i].0@, segment_prefix()) == s.engine.sstables1@[i].id && files[i].1@
            == s.engine.sstables1@[i].data@
    &&& forall|i: int|
        0 <= i < s.engine.sstables0@.len() ==> valid_id_name(
            (#[trigger] files[s.engine.sstables1@.len() + i]).0@,
            segment_prefix(),
        ) && name_id(files[s.engine.sstables1@.len() + i].0@, segment_prefix())
            == s.engine.sstables0@[i].id && files[s.engine.sstables1@.len() + i].1@
            == s.engine.sstables0@[i].data@
}

/// The log listing holds exactly a well-formed store's live write-ahead
/// logs: frozen then active, each under a correct name.
pub open spec fn wal_listing_of(files: Seq<(Vec<u8>, Vec<u8>)>, s: &Storage) -> bool {
    &&& files.len() == s.engine.memtables@.len() + 1
    &&& forall|i: int|
        0 <= i < s.engine.memtables@.len() ==> valid_id_name(
            (#[trigger] files[i]).0@,
            wal_prefix(),
        ) && name_id(files[i].0@, wal_prefix()) == s.engine.memtables@[i].id && files[i].1@
            == s.engine.memtables@[i].wal@
    &&& valid_id_name(files[files.len() - 1].0@, wal_prefix())
    &&& name_id(files[files.len() - 1].0@, wal_prefix()) == s.engine.active_memtable.id
    &&& files[files.len() - 1].1@ == s.engine.active_memtable.wal@
}

/// The rebuilt store's live in-memory tables are exactly the original's,
/// position by position: the id sequences ascend on both sides and hold
/// the same members, so they coincide.
#[verifier::rlimit(60)]
proof fn lemma_memtables_rebuilt(s: Storage, r: Storage, wal_files: Seq<(Vec<u8>, Vec<u8>)>)
    requires
        s.wf(),
        r.wf(),
        wal_listing_of(wal_files, &s),
        forall|i: int|
            0 <= i < wal_files.len() && valid_id_name(
                (#[trigger] wal_files[i]).0@,
                wal_prefix(),
            ) ==> has_live_memtable(
                &r,
                name_id(wal_files[i].0@, wal_prefix()) as u64,
                map_of(wal_records(wal_files[i].1@)),
            ),
        forall|j: int|
            0 <= j < r.engine.memtables@.len() ==> memtable_from_listing(
                (#[trigger] r.engine.memtables@[j]).id,
                r.engine.memtables@[j]@,
                wal_files,
            ),
        memtable_from_listing(r.engine.active_memtable.id, r.engine.active_memtable@, wal_files)
            || no_listed_wal(wal_files),
    ensures
        r.engine.memtables@.len() == s.engine.memtables@.len(),
        forall|i: int|
            0 <= i < s.engine.memtables@.len() ==> (#[trigger] r.engine.memtables@[i])@ == map_of(
                wal_records(s.engine.memtables@[i].wal@),
            ),
        r.engine.active_memtable@ == map_of(wal_records(s.engine.active_memtable.wal@)),
{
    let mlen = s.engine.memtables@.len() as int;
    // The last listed log is valid, so the store was not rebuilt empty.
    assert(!no_listed_wal(wal_files)) by {
        assert(valid_id_name(wal_files[wal_files.len() - 1].0@, wal_prefix()));
    }
    // The live log ids of both stores, oldest to active.
    let amem = r.engine.memtables@.map_values(|t: MemTable| t.id).push(
        r.engine.active_memtable.id,
    );
    let bmem = s.engine.memtables@.map_values(|t: MemTable| t.id).push(
        s.engine.active_memtable.id,
    );
    assert forall|x: u64| #[trigger] id_among(amem, x) implies id_among(bmem, x) by {
        let idx = choose|idx: int| 0 <= idx < amem.len() && (#[trigger] amem[idx]) == x;
        if idx < amem.len() - 1 {
            assert(r.engine.memtables@[idx].id == x);
            assert(memtable_from_listing(x, r.engine.memtables@[idx]@, wal_files));
        } else {
            assert(r.engine.active_memtable.id == x);
        }
        let i = choose|i: int|
            0 <= i < wal_files.len() && valid_id_name((#[trigger] wal_files[i]).0@, wal_prefix())
                && x == name_id(wal_files[i].0@, wal_prefix()) as u64;
        if i < mlen {
            assert(bmem[i] == s.engine.memtables@[i].id);
            assert(bmem[i] == x);
        } else {
            assert(bmem[bmem.len() - 1] == x);
        }
    }
    assert forall|x: u64| #[trigger] id_among(bmem, x) implies id_among(amem, x) by {
        let i = choose|i: int| 0 <= i < bmem.len() && (#[trigger] bmem[i]) == x;
        if i < mlen {
            assert(valid_id_name(wal_files[i].0@, wal_prefix()));
            assert(name_id(wal_files[i].0@, wal_prefix()) == x);
        } else {
            assert(i == wal_files.len() - 1);
            assert(valid_id_name(wal_files[i].0@, wal_prefix()));
            assert(name_id(wal_files[i].0@, wal_prefix()) == x);
        }
        assert(has_live_memtable(&r, x, map_of(wal_records(wal_files[i].1@))));
        if exists|j: int|
            0 <= j < r.engine.memtables@.len() && (#[trigger] r.engine.memtables@[j]).id == x
                && r.engine.memtables@[j]@ == map_of(wal_records(wal_files[i].1@)) {
            let j = choose|j: int|
                0 <= j < r.engine.memtables@.len() && (#[trigger] r.engine.memtables@[j]).id
                    == x && r.engine.memtables@[j]@ == map_of(wal_records(wal_files[i].1@));
            assert(amem[j] == x);
        } else {
            assert(r.engine.active_memtable.id == x);
            assert(amem[amem.len() - 1] == x);
        }
    }
    assert forall|i: int, j: int| 0 <= i < j < amem.len() implies amem[i] < amem[j] by {
        if j < amem.len() - 1 {
            assert(r.engine.memtables@[i].id < r.engine.memtables@[j].id);
        } else if i < amem.len() - 1 {
            assert(r.engine.memtables@[i].id < r.engine.active_memtable.id);
        }
    }
    assert forall|i: int, j: int| 0 <= i < j < bmem.len() implies bmem[i] < bmem[j] by {
        if j < bmem.len() - 1 {
            assert(s.engine.memtables@[i].id < s.engine.memtables@[j].id);
        } else if i < bmem.len() - 1 {
            assert(s.engine.memtables@[i].id < s.engine.active_memtable.id);
        }
    }
    lemma_ascending_same_members(amem, bmem);
    assert(r.engine.memtables@.len() == mlen);
    // Each frozen table recovers the log at its own position, and the
    // active table the last one: listed ids are pairwise distinct.
    assert forall|j: int|
        0 <= j < mlen implies (#[trigger] r.engine.memtables@[j])@ == map_of(
        wal_records(s.engine.memtables@[j].wal@),
    ) by {
        assert(memtable_from_listing(
            r.engine.memtables@[j].id,
            r.engine.memtables@[j]@,
            wal_files,
        ));
        let i = choose|i: int|
            0 <= i < wal_files.len() && valid_id_name((#[trigger] wal_files[i]).0@, wal_prefix())
                && r.engine.memtables@[j].id == name_id(wal_files[i].0@, wal_prefix()) as u64
                && r.engine.memtables@[j]@ == map_of(wal_records(wal_files[i].1@));
        assert(amem[j] == bmem[j]);
        assert(r.engine.memtables@[j].id == s.engine.memtables@[j].id);
        if i == mlen {
            assert(s.engine.memtables@[j].id < s.engine.active_memtable.id);
            assert(false);
        } else if i != j {
            assert(s.engine.memtables@[i].id != s.engine.memtables@[j].id);
            assert(false);
        }
    }
    assert(r.engine.active_memtable@ == map_of(wal_records(s.engine.active_memtable.wal@))) by {
        let i = choose|i: int|
            0 <= i < wal_files.len() && valid_id_name((#[trigger] wal_files[i]).0@, wal_prefix())
                && r.engine.active_memtable.id == name_id(wal_files[i].0@, wal_prefix()) as u64
                && r.engine.active_memtable@ == map_of(wal_records(wal_files[i].1@));
        assert(amem[amem.len() - 1] == bmem[bmem.len() - 1]);
        assert(r.engine.active_memtable.id == s.engine.active_memtable.id);
        if i < mlen {
            assert(s.engine.memtables@[i].id < s.engine.active_memtable.id);
            assert(false);
        }
    }
}

/// The rebuilt store's sorted tables are exactly the original's, deep
/// tier then young tier, position by position.
#[verifier::rlimit(60)]
proof fn lemma_tables_rebuilt(s: Storage, r: Storage, segment_files: Seq<(Vec<u8>, Vec<u8>)>)
    requires
        s.wf(),
        r.wf(),
        segment_listing_of(segment_files, &s),
        forall|i: int|
            0 <= i < segment_files.len() && valid_id_name(
                (#[trigger] segment_files[i]).0@,
                segment_prefix(),
            ) && openable(segment_files[i].1@) ==> has_table(
                &r,
                name_id(segment_files[i].0@, segment_prefix()) as u64,
                segment_files[i].1@,
            ),
        forall|p: int|
            0 <= p < r.engine.sstables0@.len() ==> table_from_listing(
                (#[trigger] r.engine.sstables0@[p]).id,
                r.engine.sstables0@[p].data@,
                segment_files,
            ),
    ensures
        r.engine.sstables0@.len() == s.engine.sstables1@.len() + s.engine.sstables0@.len(),
        forall|i: int|
            0 <= i < s.engine.sstables1@.len() ==> (#[trigger] r.engine.sstables0@[i]).data@
                == s.engine.sstables1@[i].data@,
        forall|i: int|
            0 <= i < s.engine.sstables0@.len() ==> (#[trigger] r.engine.sstables0@[s.engine.sstables1@.len() + i]).data@ == s.engine.sstables0@[i].data@,
{
    let n1 = s.engine.sstables1@.len() as int;
    let n0 = s.engine.sstables0@.len() as int;
    // The sorted-table ids of both stores, deep tier then young tier.
    let atab = r.engine.sstables0@.map_values(|t: crate::sstable::SSTable| t.id);
    let btab = s.engine.sstables1@.map_values(|t: crate::sstable::SSTable| t.id)
        + s.engine.sstables0@.map_values(|t: crate::sstable::SSTable| t.id);
    assert forall|x: u64| #[trigger] id_among(atab, x) implies id_among(btab, x) by {
        let p = choose|p: int| 0 <= p < atab.len() && (#[trigger] atab[p]) == x;
        assert(table_from_listing(
            r.engine.sstables0@[p].id,
            r.engine.sstables0@[p].data@,
            segment_files,
        ));
        let i = choose|i: int|
            0 <= i < segment_files.len() && valid_id_name(
                (#[trigger] segment_files[i]).0@,
                segment_prefix(),
            ) && openable(segment_files[i].1@) && x == name_id(
                segment_files[i].0@,
                segment_prefix(),
            ) as u64;
        if i < n1 {
            assert(btab[i] == s.engine.sstables1@[i].id);
            assert(btab[i] == x);
        } else {
            assert(segment_files[n1 + (i - n1)] == segment_files[i]);
            assert(btab[i] == s.engine.sstables0@[i - n1].id);
            assert(btab[i] == x);
        }
    }
    assert forall|x: u64| #[trigger] id_among(btab, x) implies id_among(atab, x) by {
        let i = choose|i: int| 0 <= i < btab.len() && (#[trigger] btab[i]) == x;
        if i < n1 {
            assert(segment_files[i].1@ == s.engine.sstables1@[i].data@);
            assert(s.engine.sstables1@[i].wf());
            assert(openable(segment_files[i].1@));
            assert(name_id(segment_files[i].0@, segment_prefix()) == x);
        } else {
            assert(segment_files[n1 + (i - n1)] == segment_files[i]);
            assert(segment_files[i].1@ == s.engine.sstables0@[i - n1].data@);
            assert(s.engine.sstables0@[i - n1].wf());
            assert(openable(segment_files[i].1@));
            assert(name_id(segment_files[i].0@, segment_prefix()) == x);
        }
        assert(has_table(&r, x, segment_files[i].1@));
        let p = choose|p: int|
            0 <= p < r.engine.sstables0@.len() && (#[trigger] r.engine.sstables0@[p]).id == x
                && r.engine.sstables0@[p].data@ == segment_files[i].1@;
        assert(atab[p] == x);
    }
    assert forall|i: int, j: int| 0 <= i < j < atab.len() implies atab[i] < atab[j] by {
        assert(r.engine.sstables0@[i].id < r.engine.sstables0@[j].id);
    }
    assert forall|i: int, j: int| 0 <= i < j < btab.len() implies btab[i] < btab[j] by {
        if j < n1 {
            assert(s.engine.sstables1@[i].id < s.engine.sstables1@[j].id);
        } else if i < n1 {
            assert(s.engine.sstables1@[i].id < s.engine.sstables0@[j - n1].id);
        } else {
            assert(s.engine.sstables0@[i - n1].id < s.engine.sstables0@[j - n1].id);
        }
    }
    lemma_ascending_same_members(atab, btab);
    assert(r.engine.sstables0@.len() == n1 + n0);
    // Each rebuilt table holds the bytes of the listed file at its own
    // position: listed table ids are pairwise distinct.
    assert forall|p: int|
        0 <= p < n1 + n0 implies (#[trigger] r.engine.sstables0@[p]).data@
        == segment_files[p].1@ by {
        assert(table_from_listing(
            r.engine.sstables0@[p].id,
            r.engine.sstables0@[p].data@,
            segment_files,
        ));
        let i = choose|i: int|
            0 <= i < segment_files.len() && valid_id_name(
                (#[trigger] segment_files[i]).0@,
                segment_prefix(),
            ) && openable(segment_files[i].1@) && r.engine.sstables0@[p].id == name_id(
                segment_files[i].0@,
                segment_prefix(),
            ) as u64 && r.engine.sstables0@[p].data@ == segment_files[i].1@;
        assert(r.engine.sstables0@[p].id == btab[i]) by {
            if i < n1 {
                assert(name_id(segment_files[i].0@, segment_prefix())
                    == s.engine.sstables1@[i].id);
            } else {
                assert(segment_files[n1 + (i - n1)] == segment_files[i]);
                assert(name_id(segment_files[i].0@, segment_prefix())
                    == s.engine.sstables0@[i - n1].id);
            }
        }
        assert(atab[p] == btab[p]);
        assert(i == p) by {
            if i < p {
                assert(btab[i] < btab[p]);
            } else if i > p {
                assert(btab[p] < btab[i]);
            }
        }
    }
    assert forall|i: int|
        0 <= i < n1 implies (#[trigger] r.engine.sstables0@[i]).data@
        == s.engine.sstables1@[i].data@ by {
        assert(r.engine.sstables0@[i].data@ == segment_files[i].1@);
    }
    assert forall|i: int|
        0 <= i < n0 implies (#[trigger] r.engine.sstables0@[s.engine.sstables1@.len() + i]).data@
        == s.engine.sstables0@[i].data@ by {
        assert(r.engine.sstables0@[n1 + i].data@ == segment_files[n1 + i].1@);
        assert(segment_files[n1 + i].1@ == s.engine.sstables0@[i].data@);
    }
}

/// Durability, end to end through `build`'s contract: when the two
/// listings hold exactly the files a well-formed store `s` keeps on
/// disk — one correctly named file per sorted table, deep tier then
/// young tier, and one per live write-ahead log, frozen then active —
/// then any store `r` satisfying `build`'s postconditions on those
/// listings reads every key exactly as `s` does.
pub proof fn lemma_durability_through_build(
    s: Storage,
    r: Storage,
    segment_files: Seq<(Vec<u8>, Vec<u8>)>,
    wal_files: Seq<(Vec<u8>, Vec<u8>)>,
)
    requires
        s.wf(),
        segment_listing_of(segment_files, &s),
        wal_listing_of(wal_files, &s),
        // What build ensures of its result on these listings.
        r.wf(),
        r.engine.sstables1@.len() == 0,
        forall|i: int|
            0 <= i < wal_files.len() && valid_id_name(
                (#[trigger] wal_files[i]).0@,
                wal_prefix(),
            ) ==> has_live_memtable(
                &r,
                name_id(wal_files[i].0@, wal_prefix()) as u64,
                map_of(wal_records(wal_files[i].1@)),
            ),
        forall|i: int|
            0 <= i < segment_files.len() && valid_id_name(
                (#[trigger] segment_files[i]).0@,
                segment_prefix(),
            ) && openable(segment_files[i].1@) ==> has_table(
                &r,
                name_id(segment_files[i].0@, segment_prefix()) as u64,
                segment_files[i].1@,
            ),
        forall|j: int|
            0 <= j < r.engine.memtables@.len() ==> memtable_from_listing(
                (#[trigger] r.engine.memtables@[j]).id,
                r.engine.memtables@[j]@,
                wal_files,
            ),
        memtable_from_listing(r.engine.active_memtable.id, r.engine.active_memtable@, wal_files)
            || no_listed_wal(wal_files),
        forall|p: int|
            0 <= p < r.engine.sstables0@.len() ==> table_from_listing(
                (#[trigger] r.engine.sstables0@[p]).id,
                r.engine.sstables0@[p].data@,
                segment_files,
            ),
    ensures
        forall|k: Seq<u8>| r.spec_read(k) == s.spec_read(k),
        r.engine.memtables@.len() == s.engine.memtables@.len(),
        forall|i: int|
            0 <= i < s.engine.memtables@.len() ==> (#[trigger] r.engine.memtables@[i])@
                == s.engine.memtables@[i]@,
        r.engine.active_memtable@ == s.engine.active_memtable@,
        r.engine.sstables0@.len() == s.engine.sstables1@.len() + s.engine.sstables0@.len(),
{
    lemma_memtables_rebuilt(s, r, wal_files);
    lemma_tables_rebuilt(s, r, segment_files);
    lemma_durability(s, r);
    assert forall|i: int|
        0 <= i < s.engine.memtables@.len() implies (#[trigger] r.engine.memtables@[i])@
        == s.engine.memtables@[i]@ by {
        assert(s.engine.memtables@[i].wf());
    }
}

/// Write visibility: once an insert of a key has taken effect, a read of
/// that key returns the inserted value, and no other key's read moved.
/// The hypothesis is exactly what `Storage::insert` ensures; flushing
/// and compaction ensure every read unchanged, so the value stays
/// visible until the next write to the key.
pub proof fn lemma_write_visibility(pre: Storage, post: Storage, k: Seq<u8>, v: Seq<u8>)
    requires
        forall|k2: Seq<u8>|
            post.spec_read(k2) == if k2 == k {
                Some(v)
            } else {
                pre.spec_read(k2)
            },
    ensures
        post.spec_read(k) == Some(v),
        forall|k2: Seq<u8>| k2 != k ==> post.spec_read(k2) == pre.spec_read(k2),
{
}

/// Delete visibility: once a removal of a key has taken effect, a read
/// of that key returns nothing, whatever older layers hold, and no other
/// key's read moved. The hypothesis is exactly what `Storage::remove`
/// ensures.
pub proof fn lemma_delete_visibility(pre: Storage, post: Storage, k: Seq<u8>)
    requires
        forall|k2: Seq<u8>|
            post.spec_read(k2) == if k2 == k {
                None::<Seq<u8>>
            } else {
                pre.spec_read(k2)
            },
    ensures
        post.spec_read(k) is None,
        forall|k2: Seq<u8>| k2 != k ==> post.spec_read(k2) == pre.spec_read(k2),
{
}

/// Durability: a store rebuilt from the bytes a well-formed store keeps
/// on disk reads every key exactly as that store did. The hypotheses
/// say how `StorageBuilder::build` rebuilds: each live in-memory table
/// recovered from its write-ahead log's bytes, and every sorted table
/// reopened from its file onto the young tier, in id order (the id
/// invariants of `Engine::wf` make id order coincide with layer order).
pub proof fn lemma_durability(s: Storage, r: Storage)
    requires
        s.wf(),
        r.engine.memtables@.len() == s.engine.memtables@.len(),
        forall|i: int|
            0 <= i < s.engine.memtables@.len() ==> (#[trigger] r.engine.memtables@[i])@ == map_of(
                wal_records(s.engine.memtables@[i].wal@),
            ),
        r.engine.active_memtable@ == map_of(wal_records(s.engine.active_memtable.wal@)),
        r.engine.sstables1@.len() == 0,
        r.engine.sstables0@.len() == s.engine.sstables1@.len() + s.engine.sstables0@.len(),
        forall|i: int|
            0 <= i < s.engine.sstables1@.len() ==> (#[trigger] r.engine.sstables0@[i]).data@
                == s.engine.sstables1@[i].data@,
        forall|i: int|
            0 <= i < s.engine.sstables0@.len() ==> (#[trigger] r.engine.sstables0@[s.engine.sstables1@.len() + i]).data@ == s.engine.sstables0@[i].data@,
    ensures
        forall|k: Seq<u8>| r.spec_read(k) == s.spec_read(k),
{
    let n1 = s.engine.sstables1@.len() as int;
    let rt = r.engine.sstables0@.len() as int;
    let mt = s.engine.memtables@.len() as int;
    assert(sstable_maps(r.engine.sstables1@).len() == 0);
    assert(sstable_maps(r.engine.sstables0@).len() == rt);
    assert(memtable_maps(r.engine.memtables@).len() == mt);
    assert(sstable_maps(s.engine.sstables1@).len() == n1);
    assert(sstable_maps(s.engine.sstables0@).len() == rt - n1);
    assert(memtable_maps(s.engine.memtables@).len() == mt);
    assert(r.engine.layer_maps().len() == rt + mt + 1);
    assert(s.engine.layer_maps().len() == rt + mt + 1);
    assert(r.engine.layer_maps() =~= s.engine.layer_maps()) by {
        assert forall|p: int|
            0 <= p < r.engine.layer_maps().len() implies r.engine.layer_maps()[p]
            == s.engine.layer_maps()[p] by {
            if p < n1 {
                assert(r.engine.layer_maps()[p] == r.engine.sstables0@[p]@);
                assert(s.engine.layer_maps()[p] == s.engine.sstables1@[p]@);
                assert(r.engine.sstables0@[p].data@ == s.engine.sstables1@[p].data@);
                assert(r.engine.sstables0@[p]@ == map_of(
                    wal_records(r.engine.sstables0@[p].data@),
                ));
                assert(s.engine.sstables1@[p]@ == map_of(
                    wal_records(s.engine.sstables1@[p].data@),
                ));
            } else if p < rt {
                assert(r.engine.layer_maps()[p] == r.engine.sstables0@[p]@);
                assert(s.engine.layer_maps()[p] == s.engine.sstables0@[p - n1]@);
                assert(r.engine.sstables0@[s.engine.sstables1@.len() + (p - n1)].data@
                    == s.engine.sstables0@[p - n1].data@);
                assert(r.engine.sstables0@[p].data@ == s.engine.sstables0@[p - n1].data@);
                assert(r.engine.sstables0@[p]@ == map_of(
                    wal_records(r.engine.sstables0@[p].data@),
                ));
                assert(s.engine.sstables0@[p - n1]@ == map_of(
                    wal_records(s.engine.sstables0@[p - n1].data@),
                ));
            } else if p < rt + mt {
                assert(r.engine.layer_maps()[p] == r.engine.memtables@[p - rt]@);
                assert(s.engine.layer_maps()[p] == s.engine.memtables@[p - rt]@);
                // A well-formed in-memory table equals what replaying
                // its write-ahead log yields.
                assert(s.engine.memtables@[p - rt].wf());
                assert(s.engine.memtables@[p - rt]@ == map_of(
                    wal_records(s.engine.memtables@[p - rt].wal@),
                ));
            } else {
                assert(p == rt + mt);
                assert(r.engine.layer_maps()[p] == r.engine.active_memtable@);
                assert(s.engine.layer_maps()[p] == s.engine.active_memtable@);
                assert(s.engine.active_memtable@ == map_of(
                    wal_records(s.engine.active_memtable.wal@),
                ));
            }
        }
    }
}

} // verus!
