use vstd::prelude::*;
use vstd::arithmetic::div_mod::lemma_fundamental_div_mod;
use vstd::arithmetic::div_mod::lemma_multiply_divide_lt;
use vstd::arithmetic::div_mod::lemma_div_pos_is_pos;
use crate::agent::QRow;
use crate::agent::QTable;
use crate::agent::entries_sorted;
use crate::agent::entries_bounded;
use crate::fixed::Q_MAX;

verus! {

/// 256 to the power n.
pub open spec fn pow256(n: int) -> int
    decreases n,
{
    if n <= 0 {
        1
    } else {
        256 * pow256(n - 1)
    }
}

/// The n least-significant base-256 digits of v, least significant first.
pub open spec fn le_bytes(v: int, n: int) -> Seq<u8>
    decreases n,
{
    if n <= 0 {
        Seq::empty()
    } else {
        seq![(v % 256) as u8] + le_bytes(v / 256, n - 1)
    }
}

/// The number a little-endian byte sequence denotes.
pub open spec fn from_le_bytes(s: Seq<u8>) -> int
    decreases s.len(),
{
    if s.len() == 0 {
        0
    } else {
        s[0] as int + 256 * from_le_bytes(s.subrange(1, s.len() as int))
    }
}

/// One stored action value on the wire: the value shifted up by Q_MAX, so
/// that the wire carries only non-negative numbers, in 8 bytes.
pub open spec fn enc_value(q: int) -> Seq<u8> {
    le_bytes(q + Q_MAX, 8)
}

/// One row on the wire: its five action values in a fixed order.
pub open spec fn enc_row(r: QRow) -> Seq<u8> {
    enc_value(r.idle as int) + enc_value(r.up as int) + enc_value(r.down as int) + enc_value(
        r.left as int,
    ) + enc_value(r.right as int)
}

/// One table entry on the wire: the state key, then its row; 48 bytes.
pub open spec fn enc_entry(e: (u64, QRow)) -> Seq<u8> {
    le_bytes(e.0 as int, 8) + enc_row(e.1)
}

/// The first n entries on the wire, in order.
pub open spec fn enc_entries(s: Seq<(u64, QRow)>, n: int) -> Seq<u8>
    decreases n,
{
    if n <= 0 {
        Seq::empty()
    } else {
        enc_entries(s, n - 1) + enc_entry(s[n - 1])
    }
}

/// A whole table on the wire: the entry count in 8 bytes, then every entry
/// in key order.
pub open spec fn encode_spec(s: Seq<(u64, QRow)>) -> Seq<u8> {
    le_bytes(s.len() as int, 8) + enc_entries(s, s.len() as int)
}

pub proof fn lemma_pow256_pos(n: int)
    ensures
        pow256(n) >= 1,
    decreases n,
{
    if n > 0 {
        lemma_pow256_pos(n - 1);
    }
}

pub proof fn lemma_pow256_8()
    ensures
        pow256(8) == 0x1_0000_0000_0000_0000,
{
    reveal_with_fuel(pow256, 9);
}

pub proof fn lemma_le_bytes_len(v: int, n: int)
    requires
        n >= 0,
    ensures
        le_bytes(v, n).len() == n,
    decreases n,
{
    if n > 0 {
        lemma_le_bytes_len(v / 256, n - 1);
    }
}

/// Writing a number in n base-256 digits and reading them back gives the
/// number, whenever it fits in n digits.
pub proof fn lemma_le_roundtrip(v: int, n: int)
    requires
        n >= 0,
        0 <= v < pow256(n),
    ensures
        from_le_bytes(le_bytes(v, n)) == v,
    decreases n,
{
    if n == 0 {
    } else {
        let b = v % 256;
        let rest = le_bytes(v / 256, n - 1);
        lemma_le_bytes_len(v / 256, n - 1);
        let s = le_bytes(v, n);
        assert(s.len() == n) by {
            lemma_le_bytes_len(v, n);
        }
        assert(s[0] == (b as u8));
        assert(s.subrange(1, n) =~= rest);
        lemma_div_pos_is_pos(v, 256);
        lemma_multiply_divide_lt(v, 256, pow256(n - 1));
        lemma_le_roundtrip(v / 256, n - 1);
        lemma_fundamental_div_mod(v, 256);
    }
}

/// A little-endian byte sequence denotes a number below 256 to the power
/// of its length.
pub proof fn lemma_from_le_bound(s: Seq<u8>)
    ensures
        0 <= from_le_bytes(s) < pow256(s.len() as int),
    decreases s.len(),
{
    if s.len() == 0 {
    } else {
        lemma_from_le_bound(s.subrange(1, s.len() as int));
    }
}

pub proof fn lemma_enc_entries_len(s: Seq<(u64, QRow)>, n: int)
    requires
        n >= 0,
    ensures
        enc_entries(s, n).len() == 48 * n,
    decreases n,
{
    if n > 0 {
        lemma_enc_entries_len(s, n - 1);
        lemma_enc_entry_len(s[n - 1]);
    }
}

pub proof fn lemma_enc_entry_len(e: (u64, QRow))
    ensures
        enc_entry(e).len() == 48,
{
    lemma_le_bytes_len(e.0 as int, 8);
    lemma_le_bytes_len(e.1.idle as int + Q_MAX, 8);
    lemma_le_bytes_len(e.1.up as int + Q_MAX, 8);
    lemma_le_bytes_len(e.1.down as int + Q_MAX, 8);
    lemma_le_bytes_len(e.1.left as int + Q_MAX, 8);
    lemma_le_bytes_len(e.1.right as int + Q_MAX, 8);
}

pub proof fn lemma_pow256_mono(a: int, b: int)
    requires
        a <= b,
    ensures
        pow256(a) <= pow256(b),
    decreases b - a,
{
    if a < b {
        lemma_pow256_mono(a, b - 1);
        lemma_pow256_pos(b - 1);
    }
}

/// Reading base-256 digits and writing them again gives the same digits.
pub proof fn lemma_from_le_inverse(s: Seq<u8>)
    ensures
        le_bytes(from_le_bytes(s), s.len() as int) == s,
    decreases s.len(),
{
    if s.len() == 0 {
        assert(le_bytes(0, 0) =~= s);
    } else {
        let rest = s.subrange(1, s.len() as int);
        let f = from_le_bytes(s);
        let fr = from_le_bytes(rest);
        lemma_from_le_bound(rest);
        lemma_pow256_pos(rest.len() as int);
        vstd::arithmetic::div_mod::lemma_fundamental_div_mod_converse(f, 256, fr, s[0] as int);
        lemma_from_le_inverse(rest);
        assert(le_bytes(f, s.len() as int) =~= s);
    }
}

/// Append the 8 little-endian bytes of v.
fn push_u64_le(out: &mut Vec<u8>, v: u64)
    ensures
        final(out)@ == old(out)@ + le_bytes(v as int, 8),
{
    let mut cur: u64 = v;
    let mut i: usize = 0;
    while i < 8
        invariant
            i <= 8,
            out@ + le_bytes(cur as int, 8 - i as int) == old(out)@ + le_bytes(v as int, 8),
        decreases 8 - i,
    {
        let ghost pre = out@;
        let ghost c0 = cur as int;
        let b = (cur % 256) as u8;
        out.push(b);
        cur = cur / 256;
        i = i + 1;
        proof {
            lemma_le_bytes_len(c0, 8 - i as int + 1);
            lemma_le_bytes_len(c0 / 256, 8 - i as int);
            assert(le_bytes(c0, 8 - i as int + 1) == seq![(c0 % 256) as u8] + le_bytes(
                c0 / 256,
                8 - i as int,
            ));
            assert(out@ + le_bytes(cur as int, 8 - i as int) =~= pre + le_bytes(
                c0,
                8 - i as int + 1,
            ));
        }
    }
    proof {
        assert(le_bytes(cur as int, 0) =~= Seq::<u8>::empty());
        assert(out@ + le_bytes(cur as int, 0) =~= out@);
    }
}

impl QTable {
    /// Encode the table for storage: the entry count, then every entry in
    /// key order, all numbers as 8 little-endian bytes, each action value
    /// shifted up by Q_MAX.
    pub fn encode(&self) -> (out: Vec<u8>)
        requires
            self.wf(),
        ensures
            out@ == encode_spec(self.entries@),
    {
        let n = self.entries.len();
        let mut out: Vec<u8> = Vec::new();
        push_u64_le(&mut out, n as u64);
        proof {
            assert(Seq::<u8>::empty() + le_bytes(n as int, 8) =~= le_bytes(n as int, 8));
            assert(out@ =~= le_bytes(n as int, 8) + enc_entries(self.entries@, 0));
        }
        let mut i: usize = 0;
        while i < n
            invariant
                self.wf(),
                n == self.entries@.len(),
                i <= n,
                out@ == le_bytes(n as int, 8) + enc_entries(self.entries@, i as int),
            decreases n - i,
        {
            let (key, row) = self.entries[i];
            proof {
                assert(crate::agent::row_bounded(self.entries@[i as int].1));
            }
            let ghost pre = out@;
            push_u64_le(&mut out, key);
            push_u64_le(&mut out, (row.idle + Q_MAX) as u64);
            push_u64_le(&mut out, (row.up + Q_MAX) as u64);
            push_u64_le(&mut out, (row.down + Q_MAX) as u64);
            push_u64_le(&mut out, (row.left + Q_MAX) as u64);
            push_u64_le(&mut out, (row.right + Q_MAX) as u64);
            proof {
                assert(out@ =~= pre + enc_entry((key, row)));
                assert(pre + enc_entry((key, row)) =~= le_bytes(n as int, 8) + enc_entries(
                    self.entries@,
                    i as int + 1,
                ));
            }
            i = i + 1;
        }
        out
    }
}

/// Why a byte sequence was rejected as a stored table.
#[derive(Clone, Copy, PartialEq, Eq, Structural, Debug)]
pub enum DecodeError {
    TooShort,
    Trailing,
    ValueOutOfRange,
    KeysOutOfOrder,
}

/// The bytes are the exact encoding of a well-formed entry sequence.
pub open spec fn valid_encoding(b: Seq<u8>, s: Seq<(u64, QRow)>) -> bool {
    entries_sorted(s) && entries_bounded(s) && b == encode_spec(s)
}

pub proof fn lemma_encode_len(s: Seq<(u64, QRow)>)
    ensures
        encode_spec(s).len() == 8 + 48 * s.len(),
{
    lemma_le_bytes_len(s.len() as int, 8);
    lemma_enc_entries_len(s, s.len() as int);
}

/// Entry i of an encoded table occupies bytes 48i to 48i+48 of the entry
/// area.
pub proof fn lemma_enc_entries_block(s: Seq<(u64, QRow)>, n: int, i: int)
    requires
        0 <= i < n,
    ensures
        enc_entries(s, n).len() == 48 * n,
        enc_entries(s, n).subrange(48 * i, 48 * i + 48) == enc_entry(s[i]),
    decreases n,
{
    lemma_enc_entries_len(s, n);
    lemma_enc_entries_len(s, n - 1);
    lemma_enc_entry_len(s[n - 1]);
    if i == n - 1 {
        assert(enc_entries(s, n).subrange(48 * i, 48 * i + 48) =~= enc_entry(s[n - 1]));
    } else {
        lemma_enc_entries_block(s, n - 1, i);
        assert(enc_entries(s, n).subrange(48 * i, 48 * i + 48) =~= enc_entries(s, n - 1).subrange(
            48 * i,
            48 * i + 48,
        ));
    }
}

/// The six 8-byte fields of one encoded entry.
pub proof fn lemma_enc_entry_fields(e: (u64, QRow))
    ensures
        enc_entry(e).len() == 48,
        enc_entry(e).subrange(0, 8) == le_bytes(e.0 as int, 8),
        enc_entry(e).subrange(8, 16) == le_bytes(e.1.idle as int + Q_MAX, 8),
        enc_entry(e).subrange(16, 24) == le_bytes(e.1.up as int + Q_MAX, 8),
        enc_entry(e).subrange(24, 32) == le_bytes(e.1.down as int + Q_MAX, 8),
        enc_entry(e).subrange(32, 40) == le_bytes(e.1.left as int + Q_MAX, 8),
        enc_entry(e).subrange(40, 48) == le_bytes(e.1.right as int + Q_MAX, 8),
{
    lemma_le_bytes_len(e.0 as int, 8);
    lemma_le_bytes_len(e.1.idle as int + Q_MAX, 8);
    lemma_le_bytes_len(e.1.up as int + Q_MAX, 8);
    lemma_le_bytes_len(e.1.down as int + Q_MAX, 8);
    lemma_le_bytes_len(e.1.left as int + Q_MAX, 8);
    lemma_le_bytes_len(e.1.right as int + Q_MAX, 8);
    assert(enc_entry(e).subrange(0, 8) =~= le_bytes(e.0 as int, 8));
    assert(enc_entry(e).subrange(8, 16) =~= le_bytes(e.1.idle as int + Q_MAX, 8));
    assert(enc_entry(e).subrange(16, 24) =~= le_bytes(e.1.up as int + Q_MAX, 8));
    assert(enc_entry(e).subrange(24, 32) =~= le_bytes(e.1.down as int + Q_MAX, 8));
    assert(enc_entry(e).subrange(32, 40) =~= le_bytes(e.1.left as int + Q_MAX, 8));
    assert(enc_entry(e).subrange(40, 48) =~= le_bytes(e.1.right as int + Q_MAX, 8));
}

/// What the bytes of a valid encoding hold: the entry count up front, and
/// each entry's key and shifted values at their fixed offsets.
pub proof fn lemma_valid_count(b: Seq<u8>, s: Seq<(u64, QRow)>)
    requires
        valid_encoding(b, s),
        b.len() < pow256(8),
    ensures
        b.len() == 8 + 48 * s.len(),
        from_le_bytes(b.subrange(0, 8)) == s.len(),
{
    lemma_encode_len(s);
    lemma_le_bytes_len(s.len() as int, 8);
    assert(b.subrange(0, 8) =~= le_bytes(s.len() as int, 8));
    lemma_le_roundtrip(s.len() as int, 8);
}

pub proof fn lemma_valid_entry_at(b: Seq<u8>, s: Seq<(u64, QRow)>, i: int)
    requires
        valid_encoding(b, s),
        b.len() < pow256(8),
        0 <= i < s.len(),
    ensures
        b.subrange(8 + 48 * i, 8 + 48 * i + 48) == enc_entry(s[i]),
        from_le_bytes(b.subrange(8 + 48 * i, 8 + 48 * i + 8)) == s[i].0 as int,
        from_le_bytes(b.subrange(8 + 48 * i + 8, 8 + 48 * i + 16)) == s[i].1.idle as int + Q_MAX,
        from_le_bytes(b.subrange(8 + 48 * i + 16, 8 + 48 * i + 24)) == s[i].1.up as int + Q_MAX,
        from_le_bytes(b.subrange(8 + 48 * i + 24, 8 + 48 * i + 32)) == s[i].1.down as int + Q_MAX,
        from_le_bytes(b.subrange(8 + 48 * i + 32, 8 + 48 * i + 40)) == s[i].1.left as int + Q_MAX,
        from_le_bytes(b.subrange(8 + 48 * i + 40, 8 + 48 * i + 48)) == s[i].1.right as int + Q_MAX,
{
    lemma_encode_len(s);
    lemma_le_bytes_len(s.len() as int, 8);
    lemma_enc_entries_block(s, s.len() as int, i);
    let e = s[i];
    lemma_enc_entry_fields(e);
    let base = 8 + 48 * i;
    assert(b.subrange(base, base + 48) =~= enc_entries(s, s.len() as int).subrange(
        48 * i,
        48 * i + 48,
    ));
    let blk = b.subrange(base, base + 48);
    assert(b.subrange(base, base + 8) =~= blk.subrange(0, 8));
    assert(b.subrange(base + 8, base + 16) =~= blk.subrange(8, 16));
    assert(b.subrange(base + 16, base + 24) =~= blk.subrange(16, 24));
    assert(b.subrange(base + 24, base + 32) =~= blk.subrange(24, 32));
    assert(b.subrange(base + 32, base + 40) =~= blk.subrange(32, 40));
    assert(b.subrange(base + 40, base + 48) =~= blk.subrange(40, 48));
    lemma_pow256_8();
    lemma_le_roundtrip(e.0 as int, 8);
    assert(crate::agent::row_bounded(e.1));
    lemma_le_roundtrip(e.1.idle as int + Q_MAX, 8);
    lemma_le_roundtrip(e.1.up as int + Q_MAX, 8);
    lemma_le_roundtrip(e.1.down as int + Q_MAX, 8);
    lemma_le_roundtrip(e.1.left as int + Q_MAX, 8);
    lemma_le_roundtrip(e.1.right as int + Q_MAX, 8);
}

/// Two entry sequences agreeing on their first n entries encode those
/// entries alike.
pub proof fn lemma_enc_entries_prefix(s1: Seq<(u64, QRow)>, s2: Seq<(u64, QRow)>, n: int)
    requires
        0 <= n <= s1.len(),
        n <= s2.len(),
        forall|i: int| 0 <= i < n ==> s1[i] == s2[i],
    ensures
        enc_entries(s1, n) == enc_entries(s2, n),
    decreases n,
{
    if n > 0 {
        lemma_enc_entries_prefix(s1, s2, n - 1);
    }
}

/// Read the 8 little-endian bytes at pos as a number.
fn read_u64_le(bytes: &Vec<u8>, pos: usize) -> (v: u64)
    requires
        pos + 8 <= bytes@.len(),
    ensures
        v as int == from_le_bytes(bytes@.subrange(pos as int, pos as int + 8)),
{
    let n = bytes.len();
    let mut acc: u64 = 0;
    let mut j: usize = 0;
    while j < 8
        invariant
            pos + 8 <= bytes@.len(),
            n == bytes@.len(),
            j <= 8,
            acc as int == from_le_bytes(
                bytes@.subrange(pos as int + 8 - j as int, pos as int + 8),
            ),
        decreases 8 - j,
    {
        proof {
            let sub = bytes@.subrange(pos as int + 8 - j as int, pos as int + 8);
            lemma_from_le_bound(sub);
            lemma_pow256_mono(j as int, 7);
            lemma_pow256_8();
            assert(pow256(8) == 256 * pow256(7));
        }
        let b = bytes[pos + (7 - j)];
        let ghost acc0 = acc as int;
        acc = acc * 256 + (b as u64);
        j = j + 1;
        proof {
            let lo = pos as int + 8 - j as int;
            let sub = bytes@.subrange(lo, pos as int + 8);
            assert(sub[0] == bytes@[lo]);
            assert(sub.subrange(1, sub.len() as int) =~= bytes@.subrange(
                lo + 1,
                pos as int + 8,
            ));
            assert(acc as int == sub[0] as int + 256 * acc0);
        }
    }
    proof {
        assert(bytes@.subrange(pos as int, pos as int + 8) == bytes@.subrange(
            pos as int + 8 - 8,
            pos as int + 8,
        ));
    }
    acc
}

impl QTable {
    /// Decode a stored table. Succeeds exactly on the byte sequences that
    /// `encode` produces from a well-formed table, and then returns that
    /// table: decoding an encoded table gives the table back, entry for
    /// entry (the round-trip law).
    pub fn decode(bytes: &Vec<u8>) -> (r: Result<QTable, DecodeError>)
        ensures
            r is Ok ==> r->Ok_0.wf() && bytes@ == encode_spec(r->Ok_0.entries@),
            forall|s: Seq<(u64, QRow)>| #[trigger]
                valid_encoding(bytes@, s) ==> r is Ok && r->Ok_0.entries@ == s,
    {
        let blen = bytes.len();
        proof {
            lemma_pow256_8();
        }
        if blen < 8 {
            proof {
                assert forall|s: Seq<(u64, QRow)>| #[trigger]
                    valid_encoding(bytes@, s) implies false by {
                    lemma_encode_len(s);
                }
            }
            return Err(DecodeError::TooShort);
        }
        let count64 = read_u64_le(bytes, 0);
        let body = blen - 8;
        let cap = body / 48;
        proof {
            lemma_fundamental_div_mod(body as int, 48);
        }
        if count64 > cap as u64 {
            proof {
                assert forall|s: Seq<(u64, QRow)>| #[trigger]
                    valid_encoding(bytes@, s) implies false by {
                    lemma_valid_count(bytes@, s);
                    vstd::arithmetic::div_mod::lemma_div_multiples_vanish(s.len() as int, 48);
                }
            }
            return Err(DecodeError::TooShort);
        }
        let count = count64 as usize;
        if count * 48 != body {
            proof {
                assert forall|s: Seq<(u64, QRow)>| #[trigger]
                    valid_encoding(bytes@, s) implies false by {
                    lemma_valid_count(bytes@, s);
                }
            }
            return Err(DecodeError::Trailing);
        }
        let mut entries: Vec<(u64, QRow)> = Vec::new();
        proof {
            assert forall|s: Seq<(u64, QRow)>| #[trigger]
                valid_encoding(bytes@, s) implies s.len() == count as int && s.subrange(0, 0)
                == entries@ by {
                lemma_valid_count(bytes@, s);
                assert(s.subrange(0, 0) =~= entries@);
            }
        }
        let mut i: usize = 0;
        while i < count
            invariant
                bytes@.len() == blen,
                blen < pow256(8),
                blen == 8 + 48 * count,
                count64 as int == from_le_bytes(bytes@.subrange(0, 8)),
                count as int == count64 as int,
                i <= count,
                entries@.len() == i,
                entries_sorted(entries@),
                entries_bounded(entries@),
                enc_entries(entries@, i as int) == bytes@.subrange(8, 8 + 48 * i as int),
                forall|s: Seq<(u64, QRow)>| #[trigger]
                    valid_encoding(bytes@, s) ==> s.len() == count as int && s.subrange(
                        0,
                        i as int,
                    ) == entries@,
            decreases count - i,
        {
            let base = 8 + i * 48;
            let key = read_u64_le(bytes, base);
            let v1 = read_u64_le(bytes, base + 8);
            let v2 = read_u64_le(bytes, base + 16);
            let v3 = read_u64_le(bytes, base + 24);
            let v4 = read_u64_le(bytes, base + 32);
            let v5 = read_u64_le(bytes, base + 40);
            let limit: u64 = (2 * Q_MAX) as u64;
            if v1 > limit || v2 > limit || v3 > limit || v4 > limit || v5 > limit {
                proof {
                    assert forall|s: Seq<(u64, QRow)>| #[trigger]
                        valid_encoding(bytes@, s) implies false by {
                        lemma_valid_count(bytes@, s);
                        lemma_valid_entry_at(bytes@, s, i as int);
                        assert(crate::agent::row_bounded(s[i as int].1));
                    }
                }
                return Err(DecodeError::ValueOutOfRange);
            }
            if i > 0 {
                let lastkey = entries[i - 1].0;
                if key <= lastkey {
                    proof {
                        assert forall|s: Seq<(u64, QRow)>| #[trigger]
                            valid_encoding(bytes@, s) implies false by {
                            lemma_valid_count(bytes@, s);
                            lemma_valid_entry_at(bytes@, s, i as int);
                            assert(s.subrange(0, i as int)[i as int - 1] == s[i as int - 1]);
                            assert(s[i as int - 1].0 < s[i as int].0);
                        }
                    }
                    return Err(DecodeError::KeysOutOfOrder);
                }
            }
            let row = QRow {
                idle: (v1 as i64) - Q_MAX,
                up: (v2 as i64) - Q_MAX,
                down: (v3 as i64) - Q_MAX,
                left: (v4 as i64) - Q_MAX,
                right: (v5 as i64) - Q_MAX,
            };
            let ghost pre = entries@;
            entries.push((key, row));
            proof {
                let e = (key, row);
                let bi = base as int;
                // the freshly read block is exactly this entry's encoding
                lemma_enc_entry_fields(e);
                lemma_from_le_inverse(bytes@.subrange(bi, bi + 8));
                lemma_from_le_inverse(bytes@.subrange(bi + 8, bi + 16));
                lemma_from_le_inverse(bytes@.subrange(bi + 16, bi + 24));
                lemma_from_le_inverse(bytes@.subrange(bi + 24, bi + 32));
                lemma_from_le_inverse(bytes@.subrange(bi + 32, bi + 40));
                lemma_from_le_inverse(bytes@.subrange(bi + 40, bi + 48));
                assert(le_bytes(key as int, 8) == bytes@.subrange(bi, bi + 8));
                assert(le_bytes(row.idle as int + Q_MAX, 8) == bytes@.subrange(bi + 8, bi + 16));
                assert(le_bytes(row.up as int + Q_MAX, 8) == bytes@.subrange(bi + 16, bi + 24));
                assert(le_bytes(row.down as int + Q_MAX, 8) == bytes@.subrange(bi + 24, bi + 32));
                assert(le_bytes(row.left as int + Q_MAX, 8) == bytes@.subrange(bi + 32, bi + 40));
                assert(le_bytes(row.right as int + Q_MAX, 8) == bytes@.subrange(bi + 40, bi + 48));
                assert(enc_entry(e) =~= bytes@.subrange(bi, bi + 48));
                // appended soundness
                lemma_enc_entries_prefix(pre, entries@, i as int);
                lemma_enc_entries_len(entries@, i as int);
                lemma_enc_entry_len(e);
                assert(enc_entries(entries@, i as int + 1) =~= bytes@.subrange(
                    8,
                    8 + 48 * (i as int + 1),
                ));
                // sortedness of the extended prefix
                assert forall|a: int, b: int|
                    0 <= a < b < entries@.len() implies (#[trigger] entries@[a]).0 < (
                #[trigger] entries@[b]).0 by {
                    if b < i as int {
                        assert(pre[a].0 < pre[b].0);
                    } else {
                        if 0 < i as int && a < i as int - 1 {
                            assert(pre[a].0 < pre[i as int - 1].0);
                        }
                    }
                }
                // completeness for the extended prefix
                assert forall|s: Seq<(u64, QRow)>| #[trigger]
                    valid_encoding(bytes@, s) implies s.len() == count as int && s.subrange(
                    0,
                    i as int + 1,
                ) == entries@ by {
                    lemma_valid_count(bytes@, s);
                    lemma_valid_entry_at(bytes@, s, i as int);
                    assert(s[i as int].0 as int == key as int);
                    assert(s[i as int].1.idle as int == row.idle as int);
                    assert(s[i as int].1.up as int == row.up as int);
                    assert(s[i as int].1.down as int == row.down as int);
                    assert(s[i as int].1.left as int == row.left as int);
                    assert(s[i as int].1.right as int == row.right as int);
                    assert(s[i as int].1 == row);
                    assert(s[i as int] == (key, row));
                    assert(s.subrange(0, i as int + 1) =~= pre.push((key, row)));
                }
            }
            i = i + 1;
        }
        let t = QTable { entries };
        proof {
            lemma_from_le_inverse(bytes@.subrange(0, 8));
            assert(le_bytes(count as int, 8) == bytes@.subrange(0, 8));
            assert(encode_spec(t.entries@) =~= bytes@);
            assert forall|s: Seq<(u64, QRow)>| #[trigger]
                valid_encoding(bytes@, s) implies t.entries@ == s by {
                assert(s.subrange(0, count as int) =~= s);
            }
        }
        Ok(t)
    }
}

} // verus!
