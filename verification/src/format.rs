//! The on-disk record codec.
//!
//! A record is `(key, stored)` encoded as a self-delimiting, length-prefixed
//! byte string: an 8-byte little-endian key length, the key bytes, a one-byte
//! tag (0 for a tombstone, 1 for a value), and for a value an 8-byte
//! little-endian value length followed by the value bytes. The encoding is
//! deterministic, so the same record always occupies the same bytes, and
//! self-delimiting, so a reader can tell a clean end of stream from a torn
//! record.

use vstd::prelude::*;

use crate::Stored;

verus! {

/// `256^k`, the number of values of a `k`-byte little-endian integer.
pub open spec fn pow256(k: nat) -> nat
    decreases k,
{
    if k == 0 {
        1
    } else {
        256 * pow256((k - 1) as nat)
    }
}

/// The `count`-byte little-endian encoding of `n` (modulo `256^count`).
pub open spec fn le_bytes(n: nat, count: nat) -> Seq<u8>
    decreases count,
{
    if count == 0 {
        Seq::empty()
    } else {
        seq![(n % 256) as u8] + le_bytes(n / 256, (count - 1) as nat)
    }
}

/// The integer a little-endian byte string denotes.
pub open spec fn from_le(s: Seq<u8>) -> nat
    decreases s.len(),
{
    if s.len() == 0 {
        0
    } else {
        (s[0] + 256 * from_le(s.skip(1))) as nat
    }
}

pub proof fn lemma_le_bytes_len(n: nat, count: nat)
    ensures
        le_bytes(n, count).len() == count,
    decreases count,
{
    if count > 0 {
        lemma_le_bytes_len(n / 256, (count - 1) as nat);
    }
}

pub proof fn lemma_from_le_bound(s: Seq<u8>)
    ensures
        from_le(s) < pow256(s.len()),
    decreases s.len(),
{
    if s.len() > 0 {
        lemma_from_le_bound(s.skip(1));
        assert(from_le(s) < pow256(s.len())) by (nonlinear_arith)
            requires
                from_le(s) == s[0] + 256 * from_le(s.skip(1)),
                s[0] < 256,
                from_le(s.skip(1)) < pow256((s.len() - 1) as nat),
                pow256(s.len()) == 256 * pow256((s.len() - 1) as nat),
        {}
    }
}

/// Decoding inverts encoding: a `count`-byte encoding of `n < 256^count`
/// reads back as `n`.
pub proof fn lemma_from_le_of_le_bytes(n: nat, count: nat)
    requires
        n < pow256(count),
    ensures
        from_le(le_bytes(n, count)) == n,
    decreases count,
{
    if count == 0 {
    } else {
        assert(n / 256 < pow256((count - 1) as nat) && n % 256 + 256 * (n / 256) == n)
            by (nonlinear_arith)
            requires
                n < pow256(count),
                pow256(count) == 256 * pow256((count - 1) as nat),
        {}
        lemma_from_le_of_le_bytes(n / 256, (count - 1) as nat);
        lemma_le_bytes_len(n / 256, (count - 1) as nat);
        assert(le_bytes(n, count).skip(1) =~= le_bytes(n / 256, (count - 1) as nat));
    }
}

/// Encoding inverts decoding: encoding what a byte string denotes gives the
/// byte string back.
pub proof fn lemma_le_bytes_of_from_le(s: Seq<u8>)
    ensures
        le_bytes(from_le(s), s.len()) == s,
    decreases s.len(),
{
    if s.len() == 0 {
        assert(le_bytes(from_le(s), s.len()) =~= s);
    } else {
        let n = from_le(s);
        assert(n % 256 == s[0] && n / 256 == from_le(s.skip(1))) by (nonlinear_arith)
            requires
                n == s[0] + 256 * from_le(s.skip(1)),
                s[0] < 256,
        {}
        lemma_le_bytes_of_from_le(s.skip(1));
        assert(le_bytes(n, s.len()) =~= s);
    }
}

/// The encoding of what a record stores: a tag byte, then for a value its
/// length-prefixed bytes.
pub open spec fn encode_stored(v: Option<Seq<u8>>) -> Seq<u8> {
    match v {
        None => seq![0u8],
        Some(val) => seq![1u8] + le_bytes(val.len(), 8) + val,
    }
}

/// The encoding of one record.
pub open spec fn encode_record(k: Seq<u8>, v: Option<Seq<u8>>) -> Seq<u8> {
    le_bytes(k.len(), 8) + k + encode_stored(v)
}

/// Parse one record off the front of a byte string: the key, what it
/// stores, and how many bytes the record occupies. `None` means the bytes
/// do not begin with a complete well-formed record.
pub open spec fn parse_record(bytes: Seq<u8>) -> Option<(Seq<u8>, Option<Seq<u8>>, int)> {
    if bytes.len() < 8 {
        None
    } else {
        let klen = from_le(bytes.subrange(0, 8)) as int;
        if bytes.len() < klen + 9 {
            None
        } else {
            let key = bytes.subrange(8, 8 + klen);
            let tag = bytes[8 + klen];
            if tag == 0u8 {
                Some((key, None, klen + 9))
            } else if tag == 1u8 {
                if bytes.len() < klen + 17 {
                    None
                } else {
                    let vlen = from_le(bytes.subrange(klen + 9, klen + 17)) as int;
                    if bytes.len() < klen + 17 + vlen {
                        None
                    } else {
                        Some(
                            (key, Some(bytes.subrange(klen + 17, klen + 17 + vlen)), klen + 17
                                + vlen),
                        )
                    }
                }
            } else {
                None
            }
        }
    }
}

/// Parsing inverts encoding: a well-formed record at the front of a stream
/// is read back exactly, whatever follows it.
pub proof fn lemma_parse_of_encode(k: Seq<u8>, v: Option<Seq<u8>>, rest: Seq<u8>)
    requires
        k.len() < pow256(8),
        v is Some ==> v.unwrap().len() < pow256(8),
    ensures
        parse_record(encode_record(k, v) + rest) == Some(
            (k, v, encode_record(k, v).len() as int),
        ),
        encode_record(k, v).len() == match v {
            None => k.len() + 9,
            Some(val) => k.len() + 17 + val.len(),
        },
{
    let b = encode_record(k, v) + rest;
    let klen = k.len() as int;
    lemma_le_bytes_len(k.len(), 8);
    assert(b.subrange(0, 8) =~= le_bytes(k.len(), 8));
    lemma_from_le_of_le_bytes(k.len(), 8);
    assert(b.subrange(8, 8 + klen) =~= k);
    match v {
        None => {
            assert(b[8 + klen] == 0u8);
        }
        Some(val) => {
            let vlen = val.len() as int;
            assert(b[8 + klen] == 1u8);
            lemma_le_bytes_len(val.len(), 8);
            assert(b.subrange(klen + 9, klen + 17) =~= le_bytes(val.len(), 8));
            lemma_from_le_of_le_bytes(val.len(), 8);
            assert(b.subrange(klen + 17, klen + 17 + vlen) =~= val);
        }
    }
}

/// What parses as a record is the encoding of that record: the consumed
/// prefix of the stream is exactly `encode_record` of what was read.
pub proof fn lemma_encode_of_parse(bytes: Seq<u8>)
    requires
        parse_record(bytes) is Some,
    ensures
        ({
            let (k, v, n) = parse_record(bytes).unwrap();
            &&& bytes.subrange(0, n) == encode_record(k, v)
            &&& 9 <= n <= bytes.len()
            &&& k.len() < pow256(8)
            &&& (v is Some ==> v.unwrap().len() < pow256(8))
        }),
{
    let (k, v, n) = parse_record(bytes).unwrap();
    let klen = from_le(bytes.subrange(0, 8)) as int;
    lemma_from_le_bound(bytes.subrange(0, 8));
    lemma_le_bytes_of_from_le(bytes.subrange(0, 8));
    assert(k.len() == klen);
    assert(le_bytes(k.len(), 8) == bytes.subrange(0, 8));
    match v {
        None => {
            assert(bytes.subrange(0, n) =~= bytes.subrange(0, 8) + k + seq![0u8]);
        }
        Some(val) => {
            let pv = bytes.subrange(klen + 9, klen + 17);
            lemma_from_le_bound(pv);
            lemma_le_bytes_of_from_le(pv);
            assert(val.len() == from_le(pv));
            assert(le_bytes(val.len(), 8) == pv);
            assert(encode_stored(v) =~= seq![1u8] + pv + val);
            assert(bytes.subrange(0, n) =~= bytes.subrange(0, 8) + k + (seq![1u8] + pv + val));
        }
    }
}

/// A parsed record is unaffected by whatever bytes follow it.
pub proof fn lemma_parse_ignores_suffix(bytes: Seq<u8>, ext: Seq<u8>)
    requires
        parse_record(bytes) is Some,
    ensures
        ({
            let (k, v, n) = parse_record(bytes).unwrap();
            parse_record(bytes.subrange(0, n) + ext) == Some((k, v, n))
        }),
{
    let (k, v, n) = parse_record(bytes).unwrap();
    lemma_encode_of_parse(bytes);
    lemma_parse_of_encode(k, v, ext);
}

/// The outcome of reading one record at a position in a byte stream.
#[derive(Debug)]
pub enum ReadOutcome {
    /// The position is exactly the end of the stream: a clean tail.
    End,
    /// Bytes remain but no complete well-formed record begins here.
    Corrupt,
    /// A record was read; the third part is the position just past it.
    Entry(Vec<u8>, Stored, usize),
}

/// Copy `buf[start..end]` into a fresh vector.
pub fn copy_range(buf: &Vec<u8>, start: usize, end: usize) -> (r: Vec<u8>)
    requires
        start <= end <= buf.len(),
    ensures
        r@ == buf@.subrange(start as int, end as int),
{
    let mut out: Vec<u8> = Vec::new();
    let mut i: usize = start;
    while i < end
        invariant
            start <= i <= end <= buf.len(),
            out@ == buf@.subrange(start as int, i as int),
        decreases end - i,
    {
        out.push(buf[i]);
        proof {
            assert(out@ =~= buf@.subrange(start as int, i + 1));
        }
        i = i + 1;
    }
    proof {
        assert(out@ =~= buf@.subrange(start as int, end as int));
    }
    out
}

/// Append the 8-byte little-endian encoding of `n`.
fn write_u64_le(out: &mut Vec<u8>, n: u64)
    ensures
        final(out)@ == old(out)@ + le_bytes(n as nat, 8),
{
    let ghost base = out@;
    let mut x = n;
    let mut k: usize = 0;
    while k < 8
        invariant
            k <= 8,
            le_bytes(n as nat, 8) == out@.skip(base.len() as int) + le_bytes(
                x as nat,
                (8 - k) as nat,
            ),
            out@.len() == base.len() + k,
            out@.subrange(0, base.len() as int) == base,
        decreases 8 - k,
    {
        let ghost pre = out@;
        let b = (x % 256) as u8;
        out.push(b);
        x = x / 256;
        proof {
            assert(out@.skip(base.len() as int) =~= pre.skip(base.len() as int) + seq![b]);
            assert(out@.skip(base.len() as int) + le_bytes(x as nat, (8 - (k + 1)) as nat) =~= pre.skip(
                base.len() as int,
            ) + (seq![b] + le_bytes(x as nat, (8 - (k + 1)) as nat)));
            assert(out@.subrange(0, base.len() as int) =~= base);
        }
        k = k + 1;
    }
    proof {
        lemma_le_bytes_len(n as nat, 8);
        assert(le_bytes(0 as nat, 0 as nat) =~= Seq::<u8>::empty());
        assert(out@.skip(base.len() as int) + le_bytes(x as nat, 0) =~= out@.skip(
            base.len() as int,
        ));
        assert(out@ =~= base + out@.skip(base.len() as int));
    }
}

/// `pow256` grows with its argument.
proof fn lemma_pow256_increases(a: nat, b: nat)
    requires
        a <= b,
    ensures
        pow256(a) <= pow256(b),
    decreases b,
{
    if a < b {
        lemma_pow256_increases(a, (b - 1) as nat);
    }
}

/// Read the 8-byte little-endian integer at `pos`.
fn read_u64_le(buf: &Vec<u8>, pos: usize) -> (r: u64)
    requires
        pos + 8 <= buf.len(),
    ensures
        r as nat == from_le(buf@.subrange(pos as int, pos + 8)),
{
    let mut acc: u64 = 0;
    let mut k: usize = 0;
    proof {
        reveal_with_fuel(pow256, 9);
        assert(buf@.subrange(pos + 8, pos + 8) =~= Seq::<u8>::empty());
    }
    while k < 8
        invariant
            k <= 8,
            pos + 8 <= buf.len(),
            acc as nat == from_le(buf@.subrange(pos + 8 - k, pos + 8)),
            acc < pow256(k as nat),
        decreases 8 - k,
    {
        proof {
            reveal_with_fuel(pow256, 9);
            lemma_pow256_increases(k as nat, 7);
        }
        let b = buf[pos + 8 - k - 1];
        acc = acc * 256 + (b as u64);
        proof {
            let s = buf@.subrange(pos + 8 - (k + 1), pos + 8);
            assert(s.skip(1) =~= buf@.subrange(pos + 8 - k, pos + 8));
            assert(s[0] == b);
        }
        k = k + 1;
    }
    proof {
        assert(buf@.subrange(pos as int, pos + 8) =~= buf@.subrange(pos + 8 - 8, pos + 8));
    }
    acc
}

/// Append the encoding of one record to a byte stream.
pub fn write_entry(out: &mut Vec<u8>, key: &Vec<u8>, value: &Stored)
    ensures
        final(out)@ == old(out)@ + encode_record(key@, value@),
{
    let ghost base = out@;
    write_u64_le(out, key.len() as u64);
    let mut i: usize = 0;
    while i < key.len()
        invariant
            i <= key.len(),
            out@ == base + le_bytes(key@.len(), 8) + key@.subrange(0, i as int),
        decreases key.len() - i,
    {
        out.push(key[i]);
        proof {
            assert(base + le_bytes(key@.len(), 8) + key@.subrange(0, i + 1) =~= (base + le_bytes(
                key@.len(),
                8,
            ) + key@.subrange(0, i as int)).push(key@[i as int]));
        }
        i = i + 1;
    }
    proof {
        assert(key@.subrange(0, key@.len() as int) =~= key@);
    }
    match value {
        Stored::Tombstone => {
            out.push(0u8);
            proof {
                assert(out@ =~= base + (le_bytes(key@.len(), 8) + key@ + seq![0u8]));
            }
        }
        Stored::Value(v) => {
            out.push(1u8);
            let ghost mid = out@;
            write_u64_le(out, v.len() as u64);
            let mut j: usize = 0;
            while j < v.len()
                invariant
                    j <= v.len(),
                    out@ == mid + le_bytes(v@.len(), 8) + v@.subrange(0, j as int),
                decreases v.len() - j,
            {
                out.push(v[j]);
                proof {
                    assert(mid + le_bytes(v@.len(), 8) + v@.subrange(0, j + 1) =~= (mid + le_bytes(
                        v@.len(),
                        8,
                    ) + v@.subrange(0, j as int)).push(v@[j as int]));
                }
                j = j + 1;
            }
            proof {
                assert(v@.subrange(0, v@.len() as int) =~= v@);
                assert(out@ =~= base + (le_bytes(key@.len(), 8) + key@ + (seq![1u8] + le_bytes(
                    v@.len(),
                    8,
                ) + v@)));
            }
        }
    }
}

/// The exact byte count a record occupies when encoded.
pub fn entry_size(key: &Vec<u8>, value: &Stored) -> (r: usize)
    requires
        encode_record(key@, value@).len() <= usize::MAX,
    ensures
        r == encode_record(key@, value@).len(),
{
    proof {
        lemma_le_bytes_len(key@.len(), 8);
        if let Stored::Value(v) = value {
            lemma_le_bytes_len(v@.len(), 8);
        }
    }
    match value {
        Stored::Tombstone => key.len() + 9,
        Stored::Value(v) => key.len() + 17 + v.len(),
    }
}

/// Read one record at `pos`, telling a clean end of stream apart from a
/// torn or malformed record.
pub fn read_entry(buf: &Vec<u8>, pos: usize) -> (r: ReadOutcome)
    requires
        pos <= buf.len(),
    ensures
        match r {
            ReadOutcome::End => pos == buf@.len(),
            ReadOutcome::Corrupt => pos < buf@.len() && parse_record(buf@.skip(pos as int))
                is None,
            ReadOutcome::Entry(k, s, next) => {
                &&& parse_record(buf@.skip(pos as int)) == Some((k@, s@, next - pos))
                &&& pos < next <= buf@.len()
            },
        },
{
    let ghost tail = buf@.skip(pos as int);
    if pos == buf.len() {
        return ReadOutcome::End;
    }
    if buf.len() - pos < 8 {
        return ReadOutcome::Corrupt;
    }
    let klen64 = read_u64_le(buf, pos);
    proof {
        assert(tail.subrange(0, 8) =~= buf@.subrange(pos as int, pos + 8));
    }
    let rest = buf.len() - pos - 8;
    if klen64 >= rest as u64 {
        // Not enough bytes left for the key and its tag.
        return ReadOutcome::Corrupt;
    }
    let klen = klen64 as usize;
    let key = copy_range(buf, pos + 8, pos + 8 + klen);
    proof {
        assert(key@ =~= tail.subrange(8, 8 + klen as int));
    }
    let tag = buf[pos + 8 + klen];
    assert(tag == tail[8 + klen as int]);
    if tag == 0 {
        return ReadOutcome::Entry(key, Stored::Tombstone, pos + 9 + klen);
    }
    if tag != 1 {
        return ReadOutcome::Corrupt;
    }
    let vstart = pos + 9 + klen;
    if buf.len() - vstart < 8 {
        return ReadOutcome::Corrupt;
    }
    let vlen64 = read_u64_le(buf, vstart);
    proof {
        assert(tail.subrange(9 + klen as int, 17 + klen as int) =~= buf@.subrange(
            vstart as int,
            vstart + 8,
        ));
    }
    let vrest = buf.len() - vstart - 8;
    if vlen64 > vrest as u64 {
        return ReadOutcome::Corrupt;
    }
    let vlen = vlen64 as usize;
    let value = copy_range(buf, vstart + 8, vstart + 8 + vlen);
    proof {
        assert(value@ =~= tail.subrange(17 + klen as int, 17 + klen as int + vlen as int));
    }
    ReadOutcome::Entry(key, Stored::Value(value), vstart + 8 + vlen)
}

} // verus!
