//! An embedded, single-node, ordered key-value store in the
//! log-structured merge-tree style.
//!
//! Keys are byte strings ordered lexicographically; values are opaque byte
//! sequences. Writes go to an append-only write-ahead log and an in-memory
//! ordered table; full tables are frozen and persisted as immutable sorted
//! tables, which a background pass merges. All file contents are handled
//! here as byte vectors; reading and writing the actual files is the
//! caller's concern.

use vstd::prelude::*;

pub mod compactor;
pub mod engine;
pub mod format;
pub mod memtable;
pub mod records;
pub mod sstable;
pub mod storage;

verus! {

/// What a record stores for a key: either an opaque value, or a tombstone
/// marking the key as deleted. Tombstones are first-class so deletions can
/// be represented in immutable files where older state for the key may
/// still live.
#[derive(Debug, Clone, PartialEq, Eq)]
pub enum Stored {
    Tombstone,
    Value(Vec<u8>),
}

impl View for Stored {
    type V = Option<Seq<u8>>;

    open spec fn view(&self) -> Option<Seq<u8>> {
        match self {
            Stored::Tombstone => None,
            Stored::Value(v) => Some(v@),
        }
    }
}

/// What a point lookup found in one layer: nothing recorded for the key,
/// a tombstone, or a value. The read path must tell the first two apart:
/// a tombstone ends the search, an absent key sends it to older layers.
#[derive(Debug, Clone, PartialEq, Eq)]
pub enum Probe {
    Missing,
    Tombstone,
    Value(Vec<u8>),
}

/// What can go wrong when the store is rebuilt from persisted bytes.
/// Plain file input and output stays with the caller; these are the
/// faults in the bytes and names themselves.
#[derive(Debug, Clone, Copy, PartialEq, Eq, Structural)]
pub enum StoreError {
    /// A sorted table's bytes end in a torn record, hold keys out of
    /// order, or repeat a key.
    Corrupt,
    /// A file in the store's directories does not carry a well-formed
    /// `name-<id>` suffix; fatal, to protect unexpected files from being
    /// mistaken for data.
    BadFilename,
    /// Two files carry the same sequence id.
    DuplicateId,
}

/// Strict lexicographic order on byte strings.
pub open spec fn lex_lt(a: Seq<u8>, b: Seq<u8>) -> bool
    decreases a.len(),
{
    if b.len() == 0 {
        false
    } else if a.len() == 0 {
        true
    } else if a[0] < b[0] {
        true
    } else if a[0] > b[0] {
        false
    } else {
        lex_lt(a.skip(1), b.skip(1))
    }
}

/// The outcome of a three-way key comparison.
#[derive(Debug, Clone, Copy, PartialEq, Eq, Structural)]
pub enum KeyOrder {
    Less,
    Equal,
    Greater,
}

/// Three-way lexicographic comparison of two byte strings.
pub fn key_cmp(a: &Vec<u8>, b: &Vec<u8>) -> (r: KeyOrder)
    ensures
        r == KeyOrder::Less <==> lex_lt(a@, b@),
        r == KeyOrder::Equal <==> a@ == b@,
        r == KeyOrder::Greater <==> lex_lt(b@, a@),
{
    let mut i: usize = 0;
    proof {
        assert(a@.skip(0) =~= a@);
        assert(b@.skip(0) =~= b@);
        assert(a@.take(0) =~= b@.take(0));
    }
    loop
        invariant
            i <= a.len(),
            i <= b.len(),
            a@.take(i as int) == b@.take(i as int),
            lex_lt(a@, b@) <==> lex_lt(a@.skip(i as int), b@.skip(i as int)),
            lex_lt(b@, a@) <==> lex_lt(b@.skip(i as int), a@.skip(i as int)),
            (a@ == b@) <==> (a@.skip(i as int) == b@.skip(i as int)),
        decreases a.len() - i,
    {
        if i == a.len() && i == b.len() {
            proof {
                assert(a@.skip(i as int) =~= b@.skip(i as int));
            }
            return KeyOrder::Equal;
        }
        if i == a.len() {
            proof {
                assert(a@.skip(i as int).len() == 0);
                assert(b@.skip(i as int).len() > 0);
            }
            return KeyOrder::Less;
        }
        if i == b.len() {
            return KeyOrder::Greater;
        }
        let ca = a[i];
        let cb = b[i];
        if ca < cb {
            proof {
                assert(a@.skip(i as int)[0] == ca);
                assert(b@.skip(i as int)[0] == cb);
            }
            return KeyOrder::Less;
        }
        if ca > cb {
            return KeyOrder::Greater;
        }
        proof {
            assert(a@.skip(i as int)[0] == ca);
            assert(b@.skip(i as int)[0] == cb);
            assert(a@.skip(i as int) =~= seq![ca] + a@.skip(i + 1));
            assert(b@.skip(i as int) =~= seq![cb] + b@.skip(i + 1));
            assert(a@.skip(i as int).skip(1) =~= a@.skip(i + 1));
            assert(b@.skip(i as int).skip(1) =~= b@.skip(i + 1));
            assert(a@.take(i + 1) =~= a@.take(i as int).push(ca));
            assert(b@.take(i + 1) =~= b@.take(i as int).push(cb));
        }
        i = i + 1;
    }
}

/// Lexicographic order is total: of two distinct byte strings one is
/// strictly below the other, and never both.
pub proof fn lemma_lex_total(a: Seq<u8>, b: Seq<u8>)
    ensures
        lex_lt(a, b) || lex_lt(b, a) || a == b,
        lex_lt(a, b) ==> !lex_lt(b, a),
        lex_lt(a, b) ==> a != b,
    decreases a.len(),
{
    if b.len() == 0 || a.len() == 0 {
        if a.len() == 0 && b.len() == 0 {
            assert(a =~= b);
        }
    } else {
        lemma_lex_total(a.skip(1), b.skip(1));
        if a[0] == b[0] && a.skip(1) == b.skip(1) {
            assert(a =~= seq![a[0]] + a.skip(1));
            assert(b =~= seq![b[0]] + b.skip(1));
        }
    }
}

/// A vector's length is bounded by the machine word, so any key or value
/// held in memory fits an 8-byte length prefix.
pub proof fn lemma_vec_len_bounded(v: &Vec<u8>)
    ensures
        v@.len() <= usize::MAX,
{
    vstd::std_specs::vec::axiom_spec_len(v);
}

/// Lexicographic order is transitive.
pub proof fn lemma_lex_trans(a: Seq<u8>, b: Seq<u8>, c: Seq<u8>)
    requires
        lex_lt(a, b),
        lex_lt(b, c),
    ensures
        lex_lt(a, c),
    decreases a.len(),
{
    if c.len() == 0 {
    } else if b.len() == 0 {
    } else if a.len() == 0 {
    } else {
        if a[0] == b[0] && b[0] == c[0] {
            lemma_lex_trans(a.skip(1), b.skip(1), c.skip(1));
        }
    }
}

} // verus!
