//! The composite scan key: an 8-byte big-endian block number followed by a
//! 4-byte big-endian transaction index.

use byteorder::BigEndian;
use byteorder::ByteOrder;
use vstd::prelude::*;
use vstd::slice::slice_subrange;

verus! {

/// Number of bytes in a composite key.
pub const KEY_LEN: usize = 12;

/// Number of key bytes taken by the block number.
pub const BLOCK_LEN: usize = 8;

/// The number that a byte string denotes when read most significant byte first.
pub open spec fn be_value(bytes: Seq<u8>) -> nat
    decreases bytes.len(),
{
    if bytes.len() == 0 {
        0
    } else {
        be_value(bytes.drop_last()) * 256 + bytes.last() as nat
    }
}

/// The `width` low-order base-256 digits of `n`, most significant first.
pub open spec fn be_bytes(n: nat, width: nat) -> Seq<u8>
    decreases width,
{
    if width == 0 {
        Seq::empty()
    } else {
        be_bytes(n / 256, (width - 1) as nat).push((n % 256) as u8)
    }
}

/// 256 to the power `width`.
pub open spec fn radix_pow(width: nat) -> nat
    decreases width,
{
    if width == 0 {
        1
    } else {
        256 * radix_pow((width - 1) as nat)
    }
}

/// The key under which the store files the logs of one transaction.
pub open spec fn key_bytes(block: u64, tx_index: u32) -> Seq<u8> {
    be_bytes(block as nat, 8) + be_bytes(tx_index as nat, 4)
}

/// The block number and transaction index that the first twelve bytes of a
/// key spell out, or `None` for a key shorter than that.
pub open spec fn key_fields(key: Seq<u8>) -> Option<(u64, u32)> {
    if key.len() < 12 {
        None
    } else {
        Some((be_value(key.subrange(0, 8)) as u64, be_value(key.subrange(8, 12)) as u32))
    }
}

/// Strict lexicographic order on byte strings, the order of the store's cursor.
pub open spec fn bytes_lt(a: Seq<u8>, b: Seq<u8>) -> bool
    decreases a.len(),
{
    if b.len() == 0 {
        false
    } else if a.len() == 0 {
        true
    } else {
        a[0] < b[0] || (a[0] == b[0] && bytes_lt(a.drop_first(), b.drop_first()))
    }
}

/// Strict order on (block, transaction index) pairs.
pub open spec fn position_lt(a: (u64, u32), b: (u64, u32)) -> bool {
    a.0 < b.0 || (a.0 == b.0 && a.1 < b.1)
}

/// A key too short to hold a block number and a transaction index.
#[derive(Debug, Clone, Copy, PartialEq, Eq)]
pub struct MalformedKeyError {
    /// Length of the offending key.
    pub len: usize,
}

/// An encoding of width `width` has `width` bytes.
pub proof fn lemma_be_bytes_len(n: nat, width: nat)
    ensures
        be_bytes(n, width).len() == width,
    decreases width,
{
    if width > 0 {
        lemma_be_bytes_len(n / 256, (width - 1) as nat);
    }
}

/// A byte string denotes a number below 256 to the power of its length.
pub proof fn lemma_be_value_bound(bytes: Seq<u8>)
    ensures
        be_value(bytes) < radix_pow(bytes.len()),
    decreases bytes.len(),
{
    if bytes.len() > 0 {
        lemma_be_value_bound(bytes.drop_last());
    }
}

/// Reading back what was written gives the number again, as long as it fits
/// into the width.
pub proof fn lemma_be_value_of_bytes(n: nat, width: nat)
    requires
        n < radix_pow(width),
    ensures
        be_value(be_bytes(n, width)) == n,
    decreases width,
{
    if width > 0 {
        let rest = be_bytes(n / 256, (width - 1) as nat);
        lemma_be_value_of_bytes(n / 256, (width - 1) as nat);
        assert(be_bytes(n, width).drop_last() =~= rest);
    }
}

/// Writing the number that a byte string denotes gives the byte string again.
pub proof fn lemma_be_bytes_of_value(bytes: Seq<u8>)
    ensures
        be_bytes(be_value(bytes), bytes.len()) == bytes,
    decreases bytes.len(),
{
    if bytes.len() > 0 {
        lemma_be_bytes_of_value(bytes.drop_last());
        let v = be_value(bytes);
        assert(v / 256 == be_value(bytes.drop_last()));
        assert(v % 256 == bytes.last() as nat);
        assert(be_bytes(v, bytes.len()) =~= bytes);
    }
}

/// The bounds of the two fields of a key: 2 to the 32 and 2 to the 64.
pub proof fn lemma_radix_pow_values()
    ensures
        radix_pow(4) == 0x1_0000_0000,
        radix_pow(8) == 0x1_0000_0000_0000_0000,
{
    reveal_with_fuel(radix_pow, 9);
}

/// `byteorder::BigEndian::read_u64`: the number that the first eight bytes
/// of `buf` denote, most significant byte first. The call panics on a
/// shorter buffer, which the precondition rules out.
#[verifier::external_body]
fn read_be_u64(buf: &[u8]) -> (n: u64)
    requires
        buf@.len() >= 8,
    ensures
        n as nat == be_value(buf@.subrange(0, 8)),
{
    BigEndian::read_u64(buf)
}

/// `byteorder::BigEndian::read_u32`: the number that the first four bytes of
/// `buf` denote, most significant byte first. The call panics on a shorter
/// buffer, which the precondition rules out.
#[verifier::external_body]
fn read_be_u32(buf: &[u8]) -> (n: u32)
    requires
        buf@.len() >= 4,
    ensures
        n as nat == be_value(buf@.subrange(0, 4)),
{
    BigEndian::read_u32(buf)
}

/// `byteorder::BigEndian::write_u64` on the part of `buf` that starts at
/// `at`: eight bytes are overwritten with `n`, most significant byte first,
/// and every other byte keeps its value. The call panics when fewer than
/// eight bytes follow `at`, which the precondition rules out.
#[verifier::external_body]
fn write_be_u64(buf: &mut Vec<u8>, at: usize, n: u64)
    requires
        at + 8 <= old(buf)@.len(),
    ensures
        final(buf)@ == old(buf)@.subrange(0, at as int) + be_bytes(n as nat, 8) + old(buf)@.subrange(
            at + 8,
            old(buf)@.len() as int,
        ),
{
    BigEndian::write_u64(&mut buf[at..], n)
}

/// `byteorder::BigEndian::write_u32` on the part of `buf` that starts at
/// `at`: four bytes are overwritten with `n`, most significant byte first,
/// and every other byte keeps its value. The call panics when fewer than
/// four bytes follow `at`, which the precondition rules out.
#[verifier::external_body]
fn write_be_u32(buf: &mut Vec<u8>, at: usize, n: u32)
    requires
        at + 4 <= old(buf)@.len(),
    ensures
        final(buf)@ == old(buf)@.subrange(0, at as int) + be_bytes(n as nat, 4) + old(buf)@.subrange(
            at + 4,
            old(buf)@.len() as int,
        ),
{
    BigEndian::write_u32(&mut buf[at..], n)
}

/// Encodes a scan position as the twelve-byte key of the store.
pub fn encode_key(block: u64, tx_index: u32) -> (key: Vec<u8>)
    ensures
        key@ == key_bytes(block, tx_index),
        key@.len() == KEY_LEN,
{
    let mut key: Vec<u8> = Vec::new();
    let mut i: usize = 0;
    while i < KEY_LEN
        invariant
            i <= KEY_LEN,
            key@.len() == i,
        decreases KEY_LEN - i,
    {
        key.push(0u8);
        i = i + 1;
    }
    write_be_u64(&mut key, 0, block);
    proof {
        lemma_be_bytes_len(block as nat, 8);
    }
    write_be_u32(&mut key, BLOCK_LEN, tx_index);
    proof {
        lemma_be_bytes_len(tx_index as nat, 4);
        assert(key@ =~= key_bytes(block, tx_index));
    }
    key
}

/// Decodes the block number and the transaction index from a key. A key of
/// fewer than twelve bytes is malformed; bytes after the twelfth are not read.
pub fn decode_key(key: &[u8]) -> (r: Result<(u64, u32), MalformedKeyError>)
    ensures
        r is Err <==> key@.len() < KEY_LEN,
        r matches Err(e) ==> e.len == key@.len(),
        r matches Ok(pos) ==> key_fields(key@) == Some(pos),
{
    if key.len() < KEY_LEN {
        return Err(MalformedKeyError { len: key.len() });
    }
    let block: u64 = read_be_u64(key);
    let tail = slice_subrange(key, BLOCK_LEN, key.len());
    let tx_index: u32 = read_be_u32(tail);
    proof {
        assert(tail@.subrange(0, 4) =~= key@.subrange(8, 12));
    }
    Ok((block, tx_index))
}

/// Decoding an encoded key gives back the block number and the transaction
/// index.
pub proof fn lemma_key_round_trip(block: u64, tx_index: u32)
    ensures
        key_fields(key_bytes(block, tx_index)) == Some((block, tx_index)),
{
    let key = key_bytes(block, tx_index);
    lemma_be_bytes_len(block as nat, 8);
    lemma_be_bytes_len(tx_index as nat, 4);
    lemma_radix_pow_values();
    lemma_be_value_of_bytes(block as nat, 8);
    lemma_be_value_of_bytes(tx_index as nat, 4);
    assert(key.subrange(0, 8) =~= be_bytes(block as nat, 8));
    assert(key.subrange(8, 12) =~= be_bytes(tx_index as nat, 4));
}

/// Encoding the fields of a twelve-byte key gives back the key.
pub proof fn lemma_key_fields_encode(key: Seq<u8>)
    requires
        key.len() == 12,
    ensures
        key_fields(key) matches Some(pos) && key_bytes(pos.0, pos.1) == key,
{
    let hi = key.subrange(0, 8);
    let lo = key.subrange(8, 12);
    lemma_radix_pow_values();
    lemma_be_value_bound(hi);
    lemma_be_value_bound(lo);
    lemma_be_bytes_of_value(hi);
    lemma_be_bytes_of_value(lo);
    assert(hi + lo =~= key);
}

/// Byte strings with the same first byte and the same rest are equal.
proof fn lemma_same_head_and_tail(a: Seq<u8>, b: Seq<u8>)
    requires
        a.len() > 0,
        b.len() > 0,
        a[0] == b[0],
        a.drop_first() == b.drop_first(),
    ensures
        a == b,
{
    assert(a.len() == b.len()) by {
        assert(a.drop_first().len() == a.len() - 1);
        assert(b.drop_first().len() == b.len() - 1);
    }
    assert forall|i: int| 0 <= i < a.len() implies a[i] == b[i] by {
        if i > 0 {
            assert(a[i] == a.drop_first()[i - 1]);
            assert(b[i] == b.drop_first()[i - 1]);
        }
    }
    assert(a =~= b);
}

/// Between byte strings of one length, a byte added at the end decides
/// the order only where the strings are equal.
proof fn lemma_lt_push(a: Seq<u8>, b: Seq<u8>, x: u8, y: u8)
    requires
        a.len() == b.len(),
    ensures
        bytes_lt(a.push(x), b.push(y)) <==> bytes_lt(a, b) || (a == b && x < y),
    decreases a.len(),
{
    let ax = a.push(x);
    let by = b.push(y);
    if a.len() == 0 {
        assert(a =~= b);
        assert(ax.drop_first().len() == 0);
        assert(by.drop_first().len() == 0);
        assert(!bytes_lt(ax.drop_first(), by.drop_first()));
    } else {
        lemma_lt_push(a.drop_first(), b.drop_first(), x, y);
        assert(ax.drop_first() =~= a.drop_first().push(x));
        assert(by.drop_first() =~= b.drop_first().push(y));
        assert(ax[0] == a[0] && by[0] == b[0]);
        if a.drop_first() == b.drop_first() && a[0] == b[0] {
            lemma_same_head_and_tail(a, b);
        }
    }
}

/// Between heads of one length, the tails decide the order only where the
/// heads are equal.
proof fn lemma_lt_concat(a1: Seq<u8>, b1: Seq<u8>, a2: Seq<u8>, b2: Seq<u8>)
    requires
        a1.len() == a2.len(),
    ensures
        bytes_lt(a1 + b1, a2 + b2) <==> bytes_lt(a1, a2) || (a1 == a2 && bytes_lt(b1, b2)),
    decreases a1.len(),
{
    if a1.len() == 0 {
        assert(a1 =~= a2);
        assert(a1 + b1 =~= b1);
        assert(a2 + b2 =~= b2);
    } else {
        lemma_lt_concat(a1.drop_first(), b1, a2.drop_first(), b2);
        assert((a1 + b1).drop_first() =~= a1.drop_first() + b1);
        assert((a2 + b2).drop_first() =~= a2.drop_first() + b2);
        assert((a1 + b1)[0] == a1[0] && (a2 + b2)[0] == a2[0]);
        if a1.drop_first() == a2.drop_first() && a1[0] == a2[0] {
            lemma_same_head_and_tail(a1, a2);
        }
    }
}

/// Between encodings of one width, byte order is numeric order.
pub proof fn lemma_be_bytes_order(n: nat, m: nat, width: nat)
    requires
        n < radix_pow(width),
        m < radix_pow(width),
    ensures
        bytes_lt(be_bytes(n, width), be_bytes(m, width)) <==> n < m,
        be_bytes(n, width) == be_bytes(m, width) <==> n == m,
    decreases width,
{
    lemma_be_value_of_bytes(n, width);
    lemma_be_value_of_bytes(m, width);
    if width > 0 {
        let w = (width - 1) as nat;
        lemma_be_bytes_order(n / 256, m / 256, w);
        lemma_be_bytes_len(n / 256, w);
        lemma_be_bytes_len(m / 256, w);
        lemma_lt_push(be_bytes(n / 256, w), be_bytes(m / 256, w), (n % 256) as u8, (m % 256) as u8);
    }
}

/// Byte order on encoded keys is numeric order on (block, transaction
/// index): the cursor of the store walks positions in ascending order.
pub proof fn lemma_key_order(a: (u64, u32), b: (u64, u32))
    ensures
        bytes_lt(key_bytes(a.0, a.1), key_bytes(b.0, b.1)) <==> position_lt(a, b),
        key_bytes(a.0, a.1) == key_bytes(b.0, b.1) <==> a == b,
{
    lemma_radix_pow_values();
    lemma_be_bytes_order(a.0 as nat, b.0 as nat, 8);
    lemma_be_bytes_order(a.1 as nat, b.1 as nat, 4);
    lemma_be_bytes_len(a.0 as nat, 8);
    lemma_be_bytes_len(b.0 as nat, 8);
    lemma_lt_concat(
        be_bytes(a.0 as nat, 8),
        be_bytes(a.1 as nat, 4),
        be_bytes(b.0 as nat, 8),
        be_bytes(b.1 as nat, 4),
    );
    lemma_key_round_trip(a.0, a.1);
    lemma_key_round_trip(b.0, b.1);
}

/// A key of at least twelve bytes sorts before a twelve-byte key exactly
/// when its first twelve bytes do.
proof fn lemma_lt_prefix(k: Seq<u8>, s: Seq<u8>)
    requires
        k.len() >= s.len(),
    ensures
        bytes_lt(k, s) <==> bytes_lt(k.subrange(0, s.len() as int), s),
    decreases s.len(),
{
    let head = k.subrange(0, s.len() as int);
    if s.len() > 0 {
        lemma_lt_prefix(k.drop_first(), s.drop_first());
        assert(head.drop_first() =~= k.drop_first().subrange(0, s.len() - 1));
        assert(head[0] == k[0]);
    }
}

/// Where one well-formed key sorts before another, its position is not
/// after the other's.
pub proof fn lemma_sorted_keys_positions(k1: Seq<u8>, k2: Seq<u8>)
    requires
        k1.len() >= 12,
        k2.len() >= 12,
        bytes_lt(k1, k2),
    ensures
        !position_lt(key_fields(k2).unwrap(), key_fields(k1).unwrap()),
{
    let h1 = k1.subrange(0, 12);
    let h2 = k2.subrange(0, 12);
    lemma_key_fields_encode(h1);
    lemma_key_fields_encode(h2);
    assert(h1.subrange(0, 8) =~= k1.subrange(0, 8));
    assert(h1.subrange(8, 12) =~= k1.subrange(8, 12));
    assert(h2.subrange(0, 8) =~= k2.subrange(0, 8));
    assert(h2.subrange(8, 12) =~= k2.subrange(8, 12));
    let first = key_fields(k1).unwrap();
    let second = key_fields(k2).unwrap();
    lemma_key_order(second, first);
    if bytes_lt(h2, h1) {
        lemma_lt_prefix(k2, h1);
        lemma_lt_heads(k2, k1, 12);
        lemma_lt_asymmetric(k1, k2);
    }
}

/// A byte string whose head sorts before another's head sorts before it.
proof fn lemma_lt_heads(a: Seq<u8>, b: Seq<u8>, n: nat)
    requires
        a.len() >= n,
        b.len() >= n,
        bytes_lt(a.subrange(0, n as int), b.subrange(0, n as int)),
    ensures
        bytes_lt(a, b),
    decreases n,
{
    if n > 0 {
        let ha = a.subrange(0, n as int);
        let hb = b.subrange(0, n as int);
        assert(ha[0] == a[0] && hb[0] == b[0]);
        assert(ha.drop_first() =~= a.drop_first().subrange(0, n - 1));
        assert(hb.drop_first() =~= b.drop_first().subrange(0, n - 1));
        if ha[0] == hb[0] {
            lemma_lt_heads(a.drop_first(), b.drop_first(), (n - 1) as nat);
        }
    }
}

/// Of two byte strings, at most one comes before the other.
pub proof fn lemma_lt_asymmetric(a: Seq<u8>, b: Seq<u8>)
    requires
        bytes_lt(a, b),
    ensures
        !bytes_lt(b, a),
    decreases a.len(),
{
    if a.len() > 0 && b.len() > 0 && a[0] == b[0] {
        lemma_lt_asymmetric(a.drop_first(), b.drop_first());
    }
}

/// What comes before a byte string comes before all that it comes before.
pub proof fn lemma_lt_transitive(a: Seq<u8>, b: Seq<u8>, c: Seq<u8>)
    requires
        bytes_lt(a, b),
        bytes_lt(b, c),
    ensures
        bytes_lt(a, c),
    decreases a.len(),
{
    if a.len() > 0 && a[0] == b[0] && b[0] == c[0] {
        lemma_lt_transitive(a.drop_first(), b.drop_first(), c.drop_first());
    }
}

/// A well-formed key sorts before the first key of a block exactly when its
/// own block number is smaller.
pub proof fn lemma_before_block_start(key: Seq<u8>, block: u64)
    requires
        key.len() >= 12,
    ensures
        bytes_lt(key, key_bytes(block, 0)) <==> key_fields(key).unwrap().0 < block,
{
    let start = key_bytes(block, 0);
    let head = key.subrange(0, 12);
    lemma_be_bytes_len(block as nat, 8);
    lemma_be_bytes_len(0, 4);
    lemma_lt_prefix(key, start);
    lemma_key_fields_encode(head);
    assert(head.subrange(0, 8) =~= key.subrange(0, 8));
    assert(head.subrange(8, 12) =~= key.subrange(8, 12));
    lemma_key_order(key_fields(key).unwrap(), (block, 0u32));
}

/// Whether `a` comes before `b` in the order of the store's cursor.
pub fn key_before(a: &[u8], b: &[u8]) -> (before: bool)
    ensures
        before == bytes_lt(a@, b@),
{
    let mut i: usize = 0;
    assert(a@.skip(0) =~= a@ && b@.skip(0) =~= b@);
    while i < a.len() && i < b.len()
        invariant
            i <= a@.len(),
            i <= b@.len(),
            bytes_lt(a@, b@) == bytes_lt(a@.skip(i as int), b@.skip(i as int)),
        decreases a@.len() - i,
    {
        let ghost ra = a@.skip(i as int);
        let ghost rb = b@.skip(i as int);
        assert(ra[0] == a@[i as int] && rb[0] == b@[i as int]);
        if a[i] < b[i] {
            return true;
        }
        if a[i] > b[i] {
            return false;
        }
        assert(ra.drop_first() =~= a@.skip(i + 1));
        assert(rb.drop_first() =~= b@.skip(i + 1));
        i = i + 1;
    }
    assert(a@.skip(i as int).len() == a@.len() - i);
    assert(b@.skip(i as int).len() == b@.len() - i);
    i < b.len()
}

} // verus!
