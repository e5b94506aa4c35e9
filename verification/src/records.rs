//! The semantics of record sequences.
//!
//! A write-ahead log or a sorted table is, in the model, a byte string that
//! parses into a sequence of records. This module defines that parse, the
//! key-to-stored map a record sequence denotes (later records win), the
//! strict key ordering that sorted tables maintain, and the lemmas that
//! connect them.

use vstd::prelude::*;

use crate::format::{encode_record, parse_record, pow256};
use crate::format::{lemma_encode_of_parse, lemma_parse_ignores_suffix, lemma_parse_of_encode};
use crate::lemma_lex_total;
use crate::lemma_lex_trans;
use crate::lex_lt;

verus! {

/// The records a byte string holds: parse from the front, stopping at the
/// first position where no complete well-formed record begins.
pub open spec fn wal_records(bytes: Seq<u8>) -> Seq<(Seq<u8>, Option<Seq<u8>>)>
    decreases bytes.len(),
        when parse_record(bytes) is Some ==> 0 < parse_record(bytes).unwrap().2 <= bytes.len()
    via wal_records_decreases
{
    match parse_record(bytes) {
        None => Seq::empty(),
        Some((k, v, n)) => seq![(k, v)] + wal_records(bytes.skip(n)),
    }
}

#[via_fn]
proof fn wal_records_decreases(bytes: Seq<u8>) {
    if parse_record(bytes) is Some {
        lemma_encode_of_parse(bytes);
    }
}

/// How many bytes of a byte string are covered by complete well-formed
/// records before the first torn or malformed one.
pub open spec fn wal_valid_len(bytes: Seq<u8>) -> int
    decreases bytes.len(),
        when parse_record(bytes) is Some ==> 0 < parse_record(bytes).unwrap().2 <= bytes.len()
    via wal_valid_len_decreases
{
    match parse_record(bytes) {
        None => 0,
        Some((k, v, n)) => n + wal_valid_len(bytes.skip(n)),
    }
}

#[via_fn]
proof fn wal_valid_len_decreases(bytes: Seq<u8>) {
    if parse_record(bytes) is Some {
        lemma_encode_of_parse(bytes);
    }
}

/// A byte string is fully valid when every byte of it belongs to a
/// complete record: nothing would be truncated on recovery.
pub open spec fn fully_valid(bytes: Seq<u8>) -> bool {
    wal_valid_len(bytes) == bytes.len()
}

pub proof fn lemma_wal_valid_len_bounds(bytes: Seq<u8>)
    ensures
        0 <= wal_valid_len(bytes) <= bytes.len(),
    decreases bytes.len(),
{
    match parse_record(bytes) {
        None => {}
        Some((k, v, n)) => {
            lemma_encode_of_parse(bytes);
            lemma_wal_valid_len_bounds(bytes.skip(n));
        }
    }
}

/// Replaying a fully valid byte string followed by anything replays the
/// first part's records and then the second's; the valid length adds up
/// the same way.
pub proof fn lemma_wal_concat(b1: Seq<u8>, b2: Seq<u8>)
    requires
        fully_valid(b1),
    ensures
        wal_records(b1 + b2) == wal_records(b1) + wal_records(b2),
        wal_valid_len(b1 + b2) == b1.len() + wal_valid_len(b2),
    decreases b1.len(),
{
    if b1.len() == 0 {
        assert(b1 + b2 =~= b2);
        assert(wal_records(b1) + wal_records(b2) =~= wal_records(b2));
    } else {
        lemma_wal_valid_len_bounds(b1);
        assert(parse_record(b1) is Some);
        let (k, v, n) = parse_record(b1).unwrap();
        lemma_encode_of_parse(b1);
        lemma_parse_ignores_suffix(b1, b1.skip(n) + b2);
        assert(b1 + b2 =~= b1.subrange(0, n) + (b1.skip(n) + b2));
        assert(parse_record(b1 + b2) == Some((k, v, n)));
        assert((b1 + b2).skip(n) =~= b1.skip(n) + b2);
        lemma_wal_valid_len_bounds(b1.skip(n));
        assert(fully_valid(b1.skip(n)));
        lemma_wal_concat(b1.skip(n), b2);
        assert(wal_records(b1 + b2) =~= wal_records(b1) + wal_records(b2));
    }
}

/// The byte string that holds a sequence of records, one encoding after
/// another.
pub open spec fn encode_all(records: Seq<(Seq<u8>, Option<Seq<u8>>)>) -> Seq<u8>
    decreases records.len(),
{
    if records.len() == 0 {
        Seq::empty()
    } else {
        encode_record(records[0].0, records[0].1) + encode_all(records.skip(1))
    }
}

/// Every key and value of a record sequence fits in a 64-bit length
/// prefix; true of anything held in memory.
pub open spec fn records_bounded(records: Seq<(Seq<u8>, Option<Seq<u8>>)>) -> bool {
    forall|i: int|
        0 <= i < records.len() ==> records[i].0.len() < pow256(8) && (records[i].1 is Some
            ==> records[i].1.unwrap().len() < pow256(8))
}

/// Replaying an encoded record sequence yields it back, with no byte left
/// over or truncated.
pub proof fn lemma_wal_of_encode_all(records: Seq<(Seq<u8>, Option<Seq<u8>>)>)
    requires
        records_bounded(records),
    ensures
        wal_records(encode_all(records)) == records,
        fully_valid(encode_all(records)),
    decreases records.len(),
{
    if records.len() == 0 {
        assert(wal_records(encode_all(records)) =~= records);
    } else {
        let (k, v) = records[0];
        let enc = encode_record(k, v);
        let rest = encode_all(records.skip(1));
        lemma_parse_of_encode(k, v, rest);
        assert(parse_record(encode_all(records)) == Some((k, v, enc.len() as int)));
        assert(encode_all(records).skip(enc.len() as int) =~= rest);
        assert(records_bounded(records.skip(1)));
        lemma_wal_of_encode_all(records.skip(1));
        assert(wal_records(encode_all(records)) =~= records);
    }
}

/// One record's encoding on its own replays as that one record.
pub proof fn lemma_encode_all_single(k: Seq<u8>, v: Option<Seq<u8>>)
    ensures
        encode_all(seq![(k, v)]) == encode_record(k, v),
{
    let s = seq![(k, v)];
    assert(s.skip(1) =~= Seq::<(Seq<u8>, Option<Seq<u8>>)>::empty());
    assert(encode_all(s.skip(1)) =~= Seq::<u8>::empty());
    assert(encode_all(s) =~= encode_record(k, v));
}

/// Appending one well-formed record to a fully valid log appends exactly
/// that record to what the log replays.
pub proof fn lemma_wal_append(pre: Seq<u8>, k: Seq<u8>, v: Option<Seq<u8>>)
    requires
        fully_valid(pre),
        k.len() < pow256(8),
        v is Some ==> v.unwrap().len() < pow256(8),
    ensures
        fully_valid(pre + encode_record(k, v)),
        wal_records(pre + encode_record(k, v)) == wal_records(pre).push((k, v)),
{
    let enc = encode_record(k, v);
    lemma_encode_all_single(k, v);
    lemma_wal_of_encode_all(seq![(k, v)]);
    lemma_wal_concat(pre, enc);
    assert(wal_records(pre) + seq![(k, v)] =~= wal_records(pre).push((k, v)));
}

/// One replay step: a record parsed at a valid position extends the valid
/// prefix by exactly that record.
pub proof fn lemma_wal_step(bytes: Seq<u8>, pos: int, k: Seq<u8>, v: Option<Seq<u8>>, next: int)
    requires
        0 <= pos <= bytes.len(),
        fully_valid(bytes.subrange(0, pos)),
        parse_record(bytes.skip(pos)) == Some((k, v, next - pos)),
    ensures
        pos < next <= bytes.len(),
        fully_valid(bytes.subrange(0, next)),
        wal_records(bytes.subrange(0, next)) == wal_records(bytes.subrange(0, pos)).push((k, v)),
        wal_records(bytes.skip(pos)) == seq![(k, v)] + wal_records(bytes.skip(next)),
        wal_valid_len(bytes.skip(pos)) == (next - pos) + wal_valid_len(bytes.skip(next)),
{
    let tail = bytes.skip(pos);
    let n = next - pos;
    lemma_encode_of_parse(tail);
    assert(tail.subrange(0, n) == encode_record(k, v));
    assert(tail.skip(n) =~= bytes.skip(next));
    let pre = bytes.subrange(0, pos);
    lemma_wal_append(pre, k, v);
    assert(bytes.subrange(0, next) =~= pre + encode_record(k, v));
    lemma_encode_all_single(k, v);
    lemma_wal_of_encode_all(seq![(k, v)]);
    lemma_wal_concat(pre, encode_record(k, v));
}

/// Whatever a byte string replays to fits 64-bit length prefixes: every
/// record came out of one.
pub proof fn lemma_wal_records_bounded(bytes: Seq<u8>)
    ensures
        records_bounded(wal_records(bytes)),
    decreases bytes.len(),
{
    match parse_record(bytes) {
        None => {}
        Some((k, v, n)) => {
            lemma_encode_of_parse(bytes);
            lemma_wal_records_bounded(bytes.skip(n));
            let r = wal_records(bytes);
            let rt = wal_records(bytes.skip(n));
            assert forall|i: int|
                0 <= i < r.len() implies (#[trigger] r[i]).0.len() < pow256(8) && (r[i].1 is Some
                ==> r[i].1.unwrap().len() < pow256(8)) by {
                if i > 0 {
                    assert(r[i] == rt[i - 1]);
                }
            }
        }
    }
}

/// The key-to-stored map a record sequence denotes: each key maps to what
/// its last record stores.
pub open spec fn map_of(records: Seq<(Seq<u8>, Option<Seq<u8>>)>) -> Map<
    Seq<u8>,
    Option<Seq<u8>>,
>
    decreases records.len(),
{
    if records.len() == 0 {
        Map::empty()
    } else {
        map_of(records.drop_last()).insert(records.last().0, records.last().1)
    }
}

pub proof fn lemma_map_of_dom_finite(records: Seq<(Seq<u8>, Option<Seq<u8>>)>)
    ensures
        map_of(records).dom().finite(),
    decreases records.len(),
{
    if records.len() > 0 {
        lemma_map_of_dom_finite(records.drop_last());
    }
}

/// A key no record carries is absent from the map.
pub proof fn lemma_map_of_absent(records: Seq<(Seq<u8>, Option<Seq<u8>>)>, k: Seq<u8>)
    requires
        forall|i: int| 0 <= i < records.len() ==> records[i].0 != k,
    ensures
        !map_of(records).contains_key(k),
    decreases records.len(),
{
    if records.len() > 0 {
        lemma_map_of_absent(records.drop_last(), k);
    }
}

/// A record sequence is strictly ascending by key; in particular no key
/// repeats.
pub open spec fn sorted_strict(records: Seq<(Seq<u8>, Option<Seq<u8>>)>) -> bool {
    forall|i: int, j: int|
        0 <= i < j < records.len() ==> lex_lt(#[trigger] records[i].0, #[trigger] records[j].0)
}

/// In a sorted sequence each record speaks for its key: the map holds
/// exactly what that record stores.
pub proof fn lemma_map_of_sorted(records: Seq<(Seq<u8>, Option<Seq<u8>>)>, i: int)
    requires
        sorted_strict(records),
        0 <= i < records.len(),
    ensures
        map_of(records).contains_key(records[i].0),
        map_of(records)[records[i].0] == records[i].1,
    decreases records.len(),
{
    if i == records.len() - 1 {
    } else {
        lemma_lex_total(records[i].0, records.last().0);
        assert(records[i].0 != records.last().0);
        assert(records.drop_last()[i] == records[i]);
        lemma_map_of_sorted(records.drop_last(), i);
    }
}

/// The map of a sorted sequence has exactly one entry per record.
pub proof fn lemma_map_of_sorted_len(records: Seq<(Seq<u8>, Option<Seq<u8>>)>)
    requires
        sorted_strict(records),
    ensures
        map_of(records).dom().finite(),
        map_of(records).dom().len() == records.len(),
    decreases records.len(),
{
    lemma_map_of_dom_finite(records);
    if records.len() > 0 {
        let prefix = records.drop_last();
        lemma_map_of_sorted_len(prefix);
        assert forall|i: int| 0 <= i < prefix.len() implies prefix[i].0 != records.last().0 by {
            lemma_lex_total(records[i].0, records.last().0);
        }
        lemma_map_of_absent(prefix, records.last().0);
    }
}

/// Putting one record between two halves, none of whose later keys match
/// it, updates the map at just that key.
pub proof fn lemma_map_of_insert_mid(
    u: Seq<(Seq<u8>, Option<Seq<u8>>)>,
    x: (Seq<u8>, Option<Seq<u8>>),
    w: Seq<(Seq<u8>, Option<Seq<u8>>)>,
)
    requires
        forall|j: int| 0 <= j < w.len() ==> w[j].0 != x.0,
    ensures
        map_of(u + seq![x] + w) == map_of(u + w).insert(x.0, x.1),
    decreases w.len(),
{
    if w.len() == 0 {
        assert(u + seq![x] + w =~= u + seq![x]);
        assert((u + seq![x]).drop_last() =~= u);
        assert(u + w =~= u);
        assert(map_of(u + seq![x] + w) =~= map_of(u + w).insert(x.0, x.1));
    } else {
        let l = w.last();
        assert((u + seq![x] + w).drop_last() =~= u + seq![x] + w.drop_last());
        assert((u + w).drop_last() =~= u + w.drop_last());
        assert((u + seq![x] + w).last() == l);
        assert((u + w).last() == l);
        lemma_map_of_insert_mid(u, x, w.drop_last());
        assert(map_of(u + seq![x] + w) =~= map_of(u + w).insert(x.0, x.1));
    }
}

/// A record sequence with one more record at its end denotes the map with
/// that record folded in.
pub proof fn lemma_map_of_push(
    records: Seq<(Seq<u8>, Option<Seq<u8>>)>,
    x: (Seq<u8>, Option<Seq<u8>>),
)
    ensures
        map_of(records.push(x)) == map_of(records).insert(x.0, x.1),
{
    assert(records.push(x).drop_last() =~= records);
}

/// Appending a record whose key is above the last keeps the sequence
/// strictly ascending.
pub proof fn lemma_sorted_push(
    records: Seq<(Seq<u8>, Option<Seq<u8>>)>,
    x: (Seq<u8>, Option<Seq<u8>>),
)
    requires
        sorted_strict(records),
        records.len() > 0 ==> lex_lt(records.last().0, x.0),
    ensures
        sorted_strict(records.push(x)),
{
    let s = records.push(x);
    assert forall|p: int, q: int| 0 <= p < q < s.len() implies lex_lt(s[p].0, s[q].0) by {
        if q < records.len() {
            assert(s[p] == records[p] && s[q] == records[q]);
        } else {
            assert(s[p] == records[p] && s[q] == x);
            if p < records.len() - 1 {
                assert(lex_lt(records[p].0, records.last().0));
                lemma_lex_trans(records[p].0, records.last().0, x.0);
            }
        }
    }
}

/// Some record of the sequence carries this key.
pub open spec fn has_key(s: Seq<(Seq<u8>, Option<Seq<u8>>)>, k: Seq<u8>) -> bool {
    exists|i: int| 0 <= i < s.len() && (#[trigger] s[i]).0 == k
}

/// The sequence holds exactly this record somewhere.
pub open spec fn has_rec(s: Seq<(Seq<u8>, Option<Seq<u8>>)>, r: (Seq<u8>, Option<Seq<u8>>)) -> bool {
    exists|i: int| 0 <= i < s.len() && #[trigger] s[i] == r
}

/// Membership in a sequence with one record at the front.
proof fn lemma_cons_membership(x: (Seq<u8>, Option<Seq<u8>>), s: Seq<(Seq<u8>, Option<Seq<u8>>)>)
    ensures
        forall|k: Seq<u8>| #[trigger] has_key(seq![x] + s, k) <==> (x.0 == k || has_key(s, k)),
        forall|r: (Seq<u8>, Option<Seq<u8>>)| #[trigger]
            has_rec(seq![x] + s, r) <==> (x == r || has_rec(s, r)),
{
    let c = seq![x] + s;
    assert forall|k: Seq<u8>| #[trigger] has_key(c, k) implies (x.0 == k || has_key(s, k)) by {
        let i = choose|i: int| 0 <= i < c.len() && (#[trigger] c[i]).0 == k;
        if i > 0 {
            assert(s[i - 1].0 == k);
        }
    }
    assert forall|k: Seq<u8>| (x.0 == k || has_key(s, k)) implies #[trigger] has_key(c, k) by {
        if x.0 == k {
            assert(c[0].0 == k);
        } else {
            let i = choose|i: int| 0 <= i < s.len() && (#[trigger] s[i]).0 == k;
            assert(c[i + 1].0 == k);
        }
    }
    assert forall|r: (Seq<u8>, Option<Seq<u8>>)| #[trigger]
        has_rec(c, r) implies (x == r || has_rec(s, r)) by {
        let i = choose|i: int| 0 <= i < c.len() && #[trigger] c[i] == r;
        if i > 0 {
            assert(s[i - 1] == r);
        }
    }
    assert forall|r: (Seq<u8>, Option<Seq<u8>>)| (x == r || has_rec(s, r)) implies #[trigger]
        has_rec(c, r) by {
        if x == r {
            assert(c[0] == r);
        } else {
            let i = choose|i: int| 0 <= i < s.len() && #[trigger] s[i] == r;
            assert(c[i + 1] == r);
        }
    }
}

/// In a sorted sequence, having a key and the map holding it coincide.
pub proof fn lemma_map_of_contains(s: Seq<(Seq<u8>, Option<Seq<u8>>)>)
    requires
        sorted_strict(s),
    ensures
        forall|k: Seq<u8>| map_of(s).contains_key(k) <==> #[trigger] has_key(s, k),
{
    assert forall|k: Seq<u8>| map_of(s).contains_key(k) <==> #[trigger] has_key(s, k) by {
        if has_key(s, k) {
            let i = choose|i: int| 0 <= i < s.len() && (#[trigger] s[i]).0 == k;
            lemma_map_of_sorted(s, i);
        } else {
            assert forall|i: int| 0 <= i < s.len() implies (#[trigger] s[i]).0 != k by {
                if s[i].0 == k {
                    assert(has_key(s, k));
                }
            }
            lemma_map_of_absent(s, k);
        }
    }
}

/// The ordered two-way merge of two record sequences: ascending by key,
/// and on a key both hold, the second sequence's record wins.
pub open spec fn merge_recs(
    a: Seq<(Seq<u8>, Option<Seq<u8>>)>,
    b: Seq<(Seq<u8>, Option<Seq<u8>>)>,
) -> Seq<(Seq<u8>, Option<Seq<u8>>)>
    decreases a.len() + b.len(),
{
    if a.len() == 0 {
        b
    } else if b.len() == 0 {
        a
    } else if a[0].0 == b[0].0 {
        seq![b[0]] + merge_recs(a.skip(1), b.skip(1))
    } else if lex_lt(a[0].0, b[0].0) {
        seq![a[0]] + merge_recs(a.skip(1), b)
    } else {
        seq![b[0]] + merge_recs(a, b.skip(1))
    }
}

/// The tail of a sorted sequence is sorted, and every key in it lies
/// above the head's.
proof fn lemma_sorted_tail(s: Seq<(Seq<u8>, Option<Seq<u8>>)>)
    requires
        sorted_strict(s),
        s.len() > 0,
    ensures
        sorted_strict(s.skip(1)),
        forall|j: int| 0 <= j < s.len() - 1 ==> lex_lt(s[0].0, (#[trigger] s.skip(1)[j]).0),
{
    assert forall|p: int, q: int|
        0 <= p < q < s.skip(1).len() implies lex_lt(
        (#[trigger] s.skip(1)[p]).0,
        (#[trigger] s.skip(1)[q]).0,
    ) by {
        assert(s.skip(1)[p] == s[p + 1] && s.skip(1)[q] == s[q + 1]);
    }
    assert forall|j: int| 0 <= j < s.len() - 1 implies lex_lt(
        s[0].0,
        (#[trigger] s.skip(1)[j]).0,
    ) by {
        assert(s.skip(1)[j] == s[j + 1]);
    }
}

/// The structural facts of the merge: it is sorted, its keys are the two
/// inputs' keys together, and each of its records is the second input's
/// record where that input has the key, else the first's.
proof fn lemma_merge_recs(a: Seq<(Seq<u8>, Option<Seq<u8>>)>, b: Seq<(Seq<u8>, Option<Seq<u8>>)>)
    requires
        sorted_strict(a),
        sorted_strict(b),
    ensures
        sorted_strict(merge_recs(a, b)),
        forall|k: Seq<u8>| #[trigger]
            has_key(merge_recs(a, b), k) <==> (has_key(a, k) || has_key(b, k)),
        forall|j: int|
            0 <= j < merge_recs(a, b).len() ==> ((has_key(b, (#[trigger] merge_recs(a, b)[j]).0)
                ==> has_rec(b, merge_recs(a, b)[j])) && (!has_key(b, merge_recs(a, b)[j].0)
                ==> has_rec(a, merge_recs(a, b)[j]))),
    decreases a.len() + b.len(),
{
    let m = merge_recs(a, b);
    if a.len() == 0 {
        assert forall|j: int| 0 <= j < m.len() implies has_key(b, (#[trigger] m[j]).0) && has_rec(
            b,
            m[j],
        ) by {
            assert(b[j].0 == m[j].0);
            assert(b[j] == m[j]);
        }
        assert forall|k: Seq<u8>| #[trigger] has_key(m, k) implies (has_key(a, k) || has_key(
            b,
            k,
        )) by {}
    } else if b.len() == 0 {
        assert forall|j: int| 0 <= j < m.len() implies !has_key(b, (#[trigger] m[j]).0)
            && has_rec(a, m[j]) by {
            assert(a[j] == m[j]);
        }
    } else {
        let a0 = a[0];
        let b0 = b[0];
        lemma_sorted_tail(a);
        lemma_sorted_tail(b);
        assert(a =~= seq![a0] + a.skip(1));
        assert(b =~= seq![b0] + b.skip(1));
        lemma_cons_membership(a0, a.skip(1));
        lemma_cons_membership(b0, b.skip(1));
        if a0.0 == b0.0 {
            let mt = merge_recs(a.skip(1), b.skip(1));
            lemma_merge_recs(a.skip(1), b.skip(1));
            lemma_cons_membership(b0, mt);
            assert(m == seq![b0] + mt);
            // Every key of the tail merge lies above the emitted key.
            assert forall|j: int| 0 <= j < mt.len() implies lex_lt(b0.0, (#[trigger] mt[j]).0) by {
                assert(has_key(mt, mt[j].0));
                if has_key(a.skip(1), mt[j].0) {
                    let i = choose|i: int|
                        0 <= i < a.skip(1).len() && (#[trigger] a.skip(1)[i]).0 == mt[j].0;
                    assert(lex_lt(a[0].0, a.skip(1)[i].0));
                } else {
                    let i = choose|i: int|
                        0 <= i < b.skip(1).len() && (#[trigger] b.skip(1)[i]).0 == mt[j].0;
                    assert(lex_lt(b[0].0, b.skip(1)[i].0));
                }
            }
            assert forall|p: int, q: int| 0 <= p < q < m.len() implies lex_lt(
                (#[trigger] m[p]).0,
                (#[trigger] m[q]).0,
            ) by {
                if p == 0 {
                    assert(m[q] == mt[q - 1]);
                } else {
                    assert(m[p] == mt[p - 1] && m[q] == mt[q - 1]);
                }
            }
            assert forall|j: int|
                0 <= j < m.len() implies ((has_key(b, (#[trigger] m[j]).0) ==> has_rec(b, m[j]))
                && (!has_key(b, m[j].0) ==> has_rec(a, m[j]))) by {
                if j == 0 {
                    assert(m[0] == b0);
                    assert(b[0] == b0);
                    assert(has_rec(b, b0));
                    assert(has_key(b, b0.0));
                } else {
                    assert(m[j] == mt[j - 1]);
                    let k = m[j].0;
                    assert(lex_lt(b0.0, k));
                    lemma_lex_total(b0.0, k);
                    if has_key(b, k) {
                        assert(has_key(b.skip(1), k));
                        assert(has_rec(b.skip(1), m[j]));
                        assert(has_rec(b, m[j]));
                    } else {
                        assert(!has_key(b.skip(1), k));
                        assert(has_rec(a.skip(1), m[j]));
                        assert(has_rec(a, m[j]));
                    }
                }
            }
        } else if lex_lt(a0.0, b0.0) {
            let mt = merge_recs(a.skip(1), b);
            lemma_merge_recs(a.skip(1), b);
            lemma_cons_membership(a0, mt);
            assert(m == seq![a0] + mt);
            assert forall|j: int| 0 <= j < mt.len() implies lex_lt(a0.0, (#[trigger] mt[j]).0) by {
                assert(has_key(mt, mt[j].0));
                if has_key(a.skip(1), mt[j].0) {
                    let i = choose|i: int|
                        0 <= i < a.skip(1).len() && (#[trigger] a.skip(1)[i]).0 == mt[j].0;
                    assert(lex_lt(a[0].0, a.skip(1)[i].0));
                } else {
                    let i = choose|i: int| 0 <= i < b.len() && (#[trigger] b[i]).0 == mt[j].0;
                    if i > 0 {
                        assert(lex_lt(b[0].0, b[i].0));
                        lemma_lex_trans(a0.0, b[0].0, b[i].0);
                    }
                }
            }
            assert forall|p: int, q: int| 0 <= p < q < m.len() implies lex_lt(
                (#[trigger] m[p]).0,
                (#[trigger] m[q]).0,
            ) by {
                if p == 0 {
                    assert(m[q] == mt[q - 1]);
                } else {
                    assert(m[p] == mt[p - 1] && m[q] == mt[q - 1]);
                }
            }
            // The emitted key is not in the second input at all.
            assert forall|i: int| 0 <= i < b.len() implies (#[trigger] b[i]).0 != a0.0 by {
                if i > 0 {
                    assert(lex_lt(b[0].0, b[i].0));
                    lemma_lex_trans(a0.0, b[0].0, b[i].0);
                    lemma_lex_total(a0.0, b[i].0);
                } else {
                    lemma_lex_total(a0.0, b[0].0);
                }
            }
            assert forall|j: int|
                0 <= j < m.len() implies ((has_key(b, (#[trigger] m[j]).0) ==> has_rec(b, m[j]))
                && (!has_key(b, m[j].0) ==> has_rec(a, m[j]))) by {
                if j == 0 {
                    assert(m[0] == a0);
                    if has_key(b, a0.0) {
                        let i = choose|i: int| 0 <= i < b.len() && (#[trigger] b[i]).0 == a0.0;
                        assert(false);
                    }
                    assert(a[0] == a0);
                    assert(has_rec(a, a0));
                } else {
                    assert(m[j] == mt[j - 1]);
                    if has_key(b, m[j].0) {
                        assert(has_rec(b, m[j]));
                    } else {
                        assert(has_rec(a.skip(1), m[j]));
                        assert(has_rec(a, m[j]));
                    }
                }
            }
        } else {
            lemma_lex_total(a0.0, b0.0);
            assert(lex_lt(b0.0, a0.0));
            let mt = merge_recs(a, b.skip(1));
            lemma_merge_recs(a, b.skip(1));
            lemma_cons_membership(b0, mt);
            assert(m == seq![b0] + mt);
            assert forall|j: int| 0 <= j < mt.len() implies lex_lt(b0.0, (#[trigger] mt[j]).0) by {
                assert(has_key(mt, mt[j].0));
                if has_key(a, mt[j].0) {
                    let i = choose|i: int| 0 <= i < a.len() && (#[trigger] a[i]).0 == mt[j].0;
                    if i > 0 {
                        assert(lex_lt(a[0].0, a[i].0));
                        lemma_lex_trans(b0.0, a[0].0, a[i].0);
                    }
                } else {
                    let i = choose|i: int|
                        0 <= i < b.skip(1).len() && (#[trigger] b.skip(1)[i]).0 == mt[j].0;
                    assert(lex_lt(b[0].0, b.skip(1)[i].0));
                }
            }
            assert forall|p: int, q: int| 0 <= p < q < m.len() implies lex_lt(
                (#[trigger] m[p]).0,
                (#[trigger] m[q]).0,
            ) by {
                if p == 0 {
                    assert(m[q] == mt[q - 1]);
                } else {
                    assert(m[p] == mt[p - 1] && m[q] == mt[q - 1]);
                }
            }
            assert forall|j: int|
                0 <= j < m.len() implies ((has_key(b, (#[trigger] m[j]).0) ==> has_rec(b, m[j]))
                && (!has_key(b, m[j].0) ==> has_rec(a, m[j]))) by {
                if j == 0 {
                    assert(m[0] == b0);
                    assert(b[0] == b0);
                    assert(has_rec(b, b0));
                    assert(has_key(b, b0.0));
                } else {
                    assert(m[j] == mt[j - 1]);
                    let k = m[j].0;
                    assert(lex_lt(b0.0, k));
                    lemma_lex_total(b0.0, k);
                    if has_key(b, k) {
                        assert(has_key(b.skip(1), k));
                        assert(has_rec(b.skip(1), m[j]));
                        assert(has_rec(b, m[j]));
                    } else {
                        assert(!has_key(b.skip(1), k));
                        assert(has_rec(a, m[j]));
                    }
                }
            }
        }
    }
}

/// What the merge denotes: the union of the two inputs' maps, the second
/// input winning where both hold a key. The merge is sorted, so no key
/// repeats, and every record fits its length prefixes.
pub proof fn lemma_merge_recs_map(
    a: Seq<(Seq<u8>, Option<Seq<u8>>)>,
    b: Seq<(Seq<u8>, Option<Seq<u8>>)>,
)
    requires
        sorted_strict(a),
        sorted_strict(b),
        records_bounded(a),
        records_bounded(b),
    ensures
        sorted_strict(merge_recs(a, b)),
        records_bounded(merge_recs(a, b)),
        map_of(merge_recs(a, b)) == map_of(a).union_prefer_right(map_of(b)),
{
    lemma_merge_recs(a, b);
    let m = merge_recs(a, b);
    assert forall|j: int|
        0 <= j < m.len() implies (#[trigger] m[j]).0.len() < pow256(8) && (m[j].1 is Some
        ==> m[j].1.unwrap().len() < pow256(8)) by {
        if has_key(b, m[j].0) {
            let i = choose|i: int| 0 <= i < b.len() && #[trigger] b[i] == m[j];
            assert(b[i].0.len() < pow256(8));
        } else {
            let i = choose|i: int| 0 <= i < a.len() && #[trigger] a[i] == m[j];
            assert(a[i].0.len() < pow256(8));
        }
    }
    lemma_map_of_contains(a);
    lemma_map_of_contains(b);
    lemma_map_of_contains(m);
    let u = map_of(a).union_prefer_right(map_of(b));
    assert forall|k: Seq<u8>| #[trigger]
        map_of(m).contains_key(k) implies u.contains_key(k) && map_of(m)[k] == u[k] by {
        assert(has_key(m, k));
        let j = choose|j: int| 0 <= j < m.len() && (#[trigger] m[j]).0 == k;
        lemma_map_of_sorted(m, j);
        if has_key(b, k) {
            assert(has_rec(b, m[j]));
            let i = choose|i: int| 0 <= i < b.len() && #[trigger] b[i] == m[j];
            lemma_map_of_sorted(b, i);
        } else {
            assert(has_rec(a, m[j]));
            let i = choose|i: int| 0 <= i < a.len() && #[trigger] a[i] == m[j];
            lemma_map_of_sorted(a, i);
        }
    }
    assert forall|k: Seq<u8>| #[trigger] u.contains_key(k) implies map_of(m).contains_key(k) by {
        if map_of(b).contains_key(k) {
            assert(has_key(b, k));
        } else {
            assert(map_of(a).contains_key(k));
            assert(has_key(a, k));
        }
        assert(has_key(m, k));
    }
    assert(map_of(m) =~= u);
}

/// The records that carry a value, in order: what compaction keeps when
/// tombstones have nothing older left to shadow.
pub open spec fn keep_values(s: Seq<(Seq<u8>, Option<Seq<u8>>)>) -> Seq<
    (Seq<u8>, Option<Seq<u8>>),
>
    decreases s.len(),
{
    if s.len() == 0 {
        s
    } else if s[0].1 is Some {
        seq![s[0]] + keep_values(s.skip(1))
    } else {
        keep_values(s.skip(1))
    }
}

proof fn lemma_keep_values_rec(s: Seq<(Seq<u8>, Option<Seq<u8>>)>)
    requires
        sorted_strict(s),
    ensures
        sorted_strict(keep_values(s)),
        forall|j: int|
            0 <= j < keep_values(s).len() ==> has_rec(s, #[trigger] keep_values(s)[j])
                && keep_values(s)[j].1 is Some,
        forall|i: int|
            0 <= i < s.len() ==> ((#[trigger] s[i]).1 is Some <==> has_key(
                keep_values(s),
                s[i].0,
            )),
    decreases s.len(),
{
    if s.len() == 0 {
    } else {
        let kv = keep_values(s);
        let kt = keep_values(s.skip(1));
        lemma_sorted_tail(s);
        lemma_keep_values_rec(s.skip(1));
        assert(s =~= seq![s[0]] + s.skip(1));
        lemma_cons_membership(s[0], s.skip(1));
        // Every record kept from the tail lies above the head's key.
        assert forall|j: int| 0 <= j < kt.len() implies lex_lt(s[0].0, (#[trigger] kt[j]).0) by {
            assert(has_rec(s.skip(1), kt[j]));
            let i = choose|i: int| 0 <= i < s.skip(1).len() && #[trigger] s.skip(1)[i] == kt[j];
            assert(lex_lt(s[0].0, s.skip(1)[i].0));
        }
        if s[0].1 is Some {
            assert(kv == seq![s[0]] + kt);
            lemma_cons_membership(s[0], kt);
            assert forall|p: int, q: int| 0 <= p < q < kv.len() implies lex_lt(
                (#[trigger] kv[p]).0,
                (#[trigger] kv[q]).0,
            ) by {
                if p == 0 {
                    assert(kv[q] == kt[q - 1]);
                } else {
                    assert(kv[p] == kt[p - 1] && kv[q] == kt[q - 1]);
                }
            }
            assert forall|j: int| 0 <= j < kv.len() implies has_rec(s, #[trigger] kv[j]) && kv[j].1
                is Some by {
                if j == 0 {
                    assert(kv[0] == s[0]);
                    assert(has_rec(s, s[0]));
                } else {
                    assert(kv[j] == kt[j - 1]);
                    assert(has_rec(s.skip(1), kv[j]));
                }
            }
            assert forall|i: int| 0 <= i < s.len() implies ((#[trigger] s[i]).1 is Some
                <==> has_key(kv, s[i].0)) by {
                if i == 0 {
                    assert(kv[0].0 == s[0].0);
                    assert(has_key(kv, s[0].0));
                } else {
                    assert(s.skip(1)[i - 1] == s[i]);
                    assert(lex_lt(s[0].0, s[i].0));
                    lemma_lex_total(s[0].0, s[i].0);
                    assert(s[i].1 is Some <==> has_key(kt, s[i].0));
                }
            }
        } else {
            assert(kv == kt);
            assert forall|j: int| 0 <= j < kv.len() implies has_rec(s, #[trigger] kv[j]) && kv[j].1
                is Some by {
                assert(has_rec(s.skip(1), kv[j]));
            }
            assert forall|i: int| 0 <= i < s.len() implies ((#[trigger] s[i]).1 is Some
                <==> has_key(kv, s[i].0)) by {
                if i == 0 {
                    if has_key(kv, s[0].0) {
                        let j = choose|j: int| 0 <= j < kv.len() && (#[trigger] kv[j]).0 == s[0].0;
                        assert(lex_lt(s[0].0, kv[j].0));
                        lemma_lex_total(s[0].0, kv[j].0);
                        assert(false);
                    }
                } else {
                    assert(s.skip(1)[i - 1] == s[i]);
                    assert(s[i].1 is Some <==> has_key(kt, s[i].0));
                }
            }
        }
    }
}

/// What dropping tombstones denotes: the keys that stored a value keep
/// exactly their value; tombstoned keys leave the map.
pub proof fn lemma_keep_values_map(s: Seq<(Seq<u8>, Option<Seq<u8>>)>)
    requires
        sorted_strict(s),
        records_bounded(s),
    ensures
        sorted_strict(keep_values(s)),
        records_bounded(keep_values(s)),
        forall|k: Seq<u8>| #[trigger]
            map_of(keep_values(s)).contains_key(k) <==> (map_of(s).contains_key(k) && map_of(s)[k]
                is Some),
        forall|k: Seq<u8>| #[trigger]
            map_of(keep_values(s)).contains_key(k) ==> map_of(keep_values(s))[k] == map_of(s)[k],
{
    lemma_keep_values_rec(s);
    let kv = keep_values(s);
    assert forall|j: int|
        0 <= j < kv.len() implies (#[trigger] kv[j]).0.len() < pow256(8) && (kv[j].1 is Some
        ==> kv[j].1.unwrap().len() < pow256(8)) by {
        let i = choose|i: int| 0 <= i < s.len() && #[trigger] s[i] == kv[j];
        assert(s[i].0.len() < pow256(8));
    }
    lemma_map_of_contains(s);
    lemma_map_of_contains(kv);
    assert forall|k: Seq<u8>| #[trigger]
        map_of(kv).contains_key(k) implies (map_of(s).contains_key(k) && map_of(s)[k] is Some
        && map_of(kv)[k] == map_of(s)[k]) by {
        assert(has_key(kv, k));
        let j = choose|j: int| 0 <= j < kv.len() && (#[trigger] kv[j]).0 == k;
        lemma_map_of_sorted(kv, j);
        assert(has_rec(s, kv[j]));
        let i = choose|i: int| 0 <= i < s.len() && #[trigger] s[i] == kv[j];
        lemma_map_of_sorted(s, i);
    }
    assert forall|k: Seq<u8>|
        map_of(s).contains_key(k) && (#[trigger] map_of(s)[k]) is Some implies map_of(
        kv,
    ).contains_key(k) by {
        assert(has_key(s, k));
        let i = choose|i: int| 0 <= i < s.len() && (#[trigger] s[i]).0 == k;
        lemma_map_of_sorted(s, i);
        assert(s[i].1 == map_of(s)[k]);
        assert(has_key(kv, s[i].0));
    }
}

} // verus!
