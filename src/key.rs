//! Storage keys: a schema tag, a big-endian timestamp and a write nonce.
//!
//! A key is `[version] ++ timestamp (16 bytes, most significant first) ++ [nonce]`,
//! so that the bytewise order of keys of one schema is the order of
//! `(timestamp, nonce)`.

use vstd::prelude::*;
use vstd::arithmetic::div_mod::{lemma_div_denominator, lemma_fundamental_div_mod};

verus! {

/// Schema tag of the keys this library writes and reads.
pub const KEY_VERSION: u8 = 1;

/// Length in bytes of an encoded key.
pub const KEY_LEN: usize = 18;

/// The decoded form of a storage key.
#[derive(Clone, Copy, Debug, PartialEq, Eq, Structural)]
pub struct StorageKey {
    pub version: u8,
    pub nonce: u8,
    pub timestamp: u128,
}

/// Why a key cannot be read.
#[derive(Clone, Copy, Debug, PartialEq, Eq, Structural)]
pub enum KeyError {
    /// The key carries another schema tag.
    SchemaMismatch,
    /// The key does not have the length of an encoded key.
    Malformed,
}

/// `256^n`.
pub open spec fn base256(n: nat) -> nat
    decreases n,
{
    if n == 0 {
        1
    } else {
        256 * base256((n - 1) as nat)
    }
}

/// Digit `i` of `x` in base 256, counted from the least significant end.
pub open spec fn digit(x: nat, i: nat) -> u8 {
    ((x / base256(i)) % 256) as u8
}

/// The sixteen bytes of a timestamp, most significant first.
pub open spec fn stamp_bytes(t: u128) -> Seq<u8> {
    Seq::new(16, |k: int| digit(t as nat, (15 - k) as nat))
}

/// The bytes of an encoded key.
pub open spec fn key_bytes(k: StorageKey) -> Seq<u8> {
    seq![k.version] + stamp_bytes(k.timestamp) + seq![k.nonce]
}

/// The number that a byte sequence denotes, most significant byte first.
pub open spec fn be_value(s: Seq<u8>) -> nat
    decreases s.len(),
{
    if s.len() == 0 {
        0
    } else {
        (be_value(s.drop_last()) * 256 + s.last()) as nat
    }
}

/// What reading `b` as a key of schema `expected` gives.
pub open spec fn parse_key(b: Seq<u8>, expected: u8) -> Result<StorageKey, KeyError> {
    if b.len() == 0 {
        Err(KeyError::Malformed)
    } else if b[0] != expected {
        Err(KeyError::SchemaMismatch)
    } else if b.len() != 18 {
        Err(KeyError::Malformed)
    } else {
        Ok(StorageKey { version: b[0], nonce: b[17], timestamp: be_value(b.subrange(1, 17)) as u128 })
    }
}

/// Bytewise lexicographic order, a proper prefix coming first: the order in
/// which the store iterates its keys.
pub open spec fn bytes_before(a: Seq<u8>, b: Seq<u8>) -> bool
    decreases a.len(),
{
    if b.len() == 0 {
        false
    } else if a.len() == 0 {
        true
    } else if a[0] != b[0] {
        a[0] < b[0]
    } else {
        bytes_before(a.drop_first(), b.drop_first())
    }
}

/// Chronological order of keys, ties broken by nonce.
pub open spec fn key_before(a: StorageKey, b: StorageKey) -> bool {
    a.timestamp < b.timestamp || (a.timestamp == b.timestamp && a.nonce < b.nonce)
}

/// Encodes a key.
pub fn encode_key(key: StorageKey) -> (r: Vec<u8>)
    ensures
        r@ == key_bytes(key),
{
    let ghost t = key.timestamp as nat;
    // least significant digit first
    let mut digits: Vec<u8> = Vec::new();
    let mut x: u128 = key.timestamp;
    let mut i: usize = 0;
    assert(base256(0) == 1);
    assert(t / 1 == t);
    while i < 16
        invariant
            i <= 16,
            digits.len() == i,
            t == key.timestamp as nat,
            x as nat == t / base256(i as nat),
            forall|j: int| 0 <= j < i ==> digits@[j] == digit(t, j as nat),
        decreases 16 - i,
    {
        proof {
            lemma_base256_positive(i as nat);
            lemma_div_denominator(t as int, base256(i as nat) as int, 256);
        }
        digits.push((x % 256) as u8);
        x = x / 256;
        i = i + 1;
    }
    let mut out: Vec<u8> = Vec::new();
    out.push(key.version);
    let mut k: usize = 0;
    while k < 16
        invariant
            k <= 16,
            digits.len() == 16,
            t == key.timestamp as nat,
            forall|j: int| 0 <= j < 16 ==> digits@[j] == digit(t, j as nat),
            out@ == seq![key.version] + stamp_bytes(key.timestamp).take(k as int),
        decreases 16 - k,
    {
        proof {
            lemma_stamp_byte(key.timestamp, k as int);
        }
        assert(digits@[15 - k as int] == stamp_bytes(key.timestamp)[k as int]);
        out.push(digits[15 - k]);
        k = k + 1;
        assert(out@ =~= seq![key.version] + stamp_bytes(key.timestamp).take(k as int));
    }
    out.push(key.nonce);
    assert(out@ =~= key_bytes(key));
    out
}

/// Decodes a key of schema `expected`.
pub fn decode_key(bytes: &[u8], expected: u8) -> (r: Result<StorageKey, KeyError>)
    ensures
        r == parse_key(bytes@, expected),
{
    if bytes.len() == 0 {
        return Err(KeyError::Malformed);
    }
    if bytes[0] != expected {
        return Err(KeyError::SchemaMismatch);
    }
    if bytes.len() != KEY_LEN {
        return Err(KeyError::Malformed);
    }
    let mut acc: u128 = 0;
    let mut k: usize = 1;
    while k < 17
        invariant
            1 <= k <= 17,
            bytes@.len() == 18,
            acc as nat == be_value(bytes@.subrange(1, k as int)),
        decreases 17 - k,
    {
        proof {
            lemma_be_value_bound(bytes@.subrange(1, k as int));
            lemma_base256_bound((k - 1) as nat);
            assert(bytes@.subrange(1, k + 1).drop_last() =~= bytes@.subrange(1, k as int));
        }
        acc = acc * 256 + bytes[k] as u128;
        k = k + 1;
    }
    Ok(StorageKey { version: bytes[0], nonce: bytes[17], timestamp: acc })
}

proof fn lemma_stamp_byte(t: u128, k: int)
    requires
        0 <= k < 16,
    ensures
        stamp_bytes(t)[k] == digit(t as nat, (15 - k) as nat),
{
}

proof fn lemma_base256_positive(n: nat)
    ensures
        base256(n) > 0,
    decreases n,
{
    if n > 0 {
        lemma_base256_positive((n - 1) as nat);
    }
}

proof fn lemma_base256_sixteen()
    ensures
        base256(16) == 0x1_0000_0000_0000_0000_0000_0000_0000_0000,
{
    reveal_with_fuel(base256, 17);
}

proof fn lemma_base256_monotone(n: nat, m: nat)
    requires
        n <= m,
    ensures
        base256(n) <= base256(m),
    decreases m,
{
    if n < m {
        lemma_base256_monotone(n, (m - 1) as nat);
    }
}

proof fn lemma_base256_bound(n: nat)
    requires
        n <= 15,
    ensures
        base256(n) * 256 <= 0x1_0000_0000_0000_0000_0000_0000_0000_0000,
{
    lemma_base256_monotone(n + 1, 16);
    lemma_base256_sixteen();
}

proof fn lemma_be_value_bound(s: Seq<u8>)
    ensures
        be_value(s) < base256(s.len()),
    decreases s.len(),
{
    if s.len() > 0 {
        lemma_be_value_bound(s.drop_last());
        let p = base256((s.len() - 1) as nat);
        let v = be_value(s.drop_last());
        assert(v * 256 + s.last() < p * 256) by (nonlinear_arith)
            requires
                v < p,
                s.last() < 256,
        ;
    }
}

/// Issues the keys of successive writes: every write gets the current nonce,
/// which then steps on, wrapping from 255 to 0.
pub struct KeyWriter {
    pub nonce: u8,
}

/// The nonce that follows `n`.
pub open spec fn next_nonce(n: u8) -> u8 {
    ((n + 1) % 256) as u8
}

impl KeyWriter {
    pub fn new() -> (w: KeyWriter)
        ensures
            w.nonce == 0,
    {
        KeyWriter { nonce: 0 }
    }

    /// The key of a write at instant `at`; the nonce steps on.
    pub fn next_key(&mut self, at: u128) -> (r: Vec<u8>)
        ensures
            r@ == key_bytes(StorageKey { version: KEY_VERSION, nonce: old(self).nonce, timestamp: at }),
            final(self).nonce == next_nonce(old(self).nonce),
    {
        let key = StorageKey { version: KEY_VERSION, nonce: self.nonce, timestamp: at };
        self.nonce = if self.nonce == 255 { 0 } else { self.nonce + 1 };
        encode_key(key)
    }
}

proof fn lemma_stamp_prefix_value(t: u128, k: nat)
    requires
        k <= 16,
    ensures
        be_value(stamp_bytes(t).take(k as int)) == t as nat / base256((16 - k) as nat),
    decreases k,
{
    let n = (16 - k) as nat;
    lemma_base256_positive(n);
    if k == 0 {
        assert(stamp_bytes(t).take(0) =~= Seq::<u8>::empty());
        lemma_base256_sixteen();
        assert(t as nat / base256(16) == 0) by (nonlinear_arith)
            requires
                t < base256(16),
        ;
    } else {
        lemma_stamp_prefix_value(t, (k - 1) as nat);
        assert(stamp_bytes(t).take(k as int).drop_last() =~= stamp_bytes(t).take(k - 1));
        lemma_stamp_byte(t, k - 1);
        let y = t as nat / base256(n);
        lemma_div_denominator(t as int, base256(n) as int, 256);
        assert(base256(n + 1) == base256(n) * 256);
        lemma_fundamental_div_mod(y as int, 256);
    }
}

proof fn lemma_stamp_value(t: u128)
    ensures
        be_value(stamp_bytes(t)) == t,
{
    lemma_stamp_prefix_value(t, 16);
    assert(stamp_bytes(t).take(16) =~= stamp_bytes(t));
    assert(base256(0) == 1);
    assert(t as nat / 1 == t);
}

/// Decoding an encoded key with its own schema tag gives the key back.
pub proof fn lemma_round_trip(k: StorageKey)
    ensures
        parse_key(key_bytes(k), k.version) == Ok::<StorageKey, KeyError>(k),
{
    let b = key_bytes(k);
    assert(b.subrange(1, 17) =~= stamp_bytes(k.timestamp));
    lemma_stamp_value(k.timestamp);
}

proof fn lemma_be_value_front(s: Seq<u8>)
    requires
        s.len() > 0,
    ensures
        be_value(s) == s[0] * base256((s.len() - 1) as nat) + be_value(s.drop_first()),
    decreases s.len(),
{
    if s.len() == 1 {
        assert(s.drop_last() =~= Seq::<u8>::empty());
        assert(s.drop_first() =~= Seq::<u8>::empty());
        assert(base256(0) == 1);
        assert(be_value(s) == be_value(s.drop_last()) * 256 + s.last());
        assert(be_value(Seq::<u8>::empty()) == 0);
        assert(s.last() == s[0]);
        assert(s[0] * base256(0) == s[0]);
    } else {
        let n = (s.len() - 2) as nat;
        lemma_be_value_front(s.drop_last());
        assert(s.drop_last().drop_first() =~= s.drop_first().drop_last());
        let p = base256(n);
        let r = be_value(s.drop_first().drop_last());
        assert(base256(n + 1) == 256 * p);
        assert(s.drop_last()[0] == s[0]);
        assert(s.drop_first().last() == s.last());
        assert(be_value(s) == be_value(s.drop_last()) * 256 + s.last());
        assert(be_value(s.drop_first()) == r * 256 + s.last());
        let x = s[0] as int;
        let l = s.last() as int;
        assert((x * p + r) * 256 + l == x * (256 * p) + (r * 256 + l)) by (nonlinear_arith);
        assert(be_value(s.drop_last()) == x * p + r);
    }
}

proof fn lemma_bytes_before_value(a: Seq<u8>, b: Seq<u8>)
    requires
        a.len() == b.len(),
    ensures
        bytes_before(a, b) == (be_value(a) < be_value(b)),
    decreases a.len(),
{
    if a.len() > 0 {
        lemma_be_value_front(a);
        lemma_be_value_front(b);
        lemma_be_value_bound(a.drop_first());
        lemma_be_value_bound(b.drop_first());
        let p = base256((a.len() - 1) as nat);
        let ra = be_value(a.drop_first());
        let rb = be_value(b.drop_first());
        let x = a[0] as int;
        let y = b[0] as int;
        if x == y {
            lemma_bytes_before_value(a.drop_first(), b.drop_first());
        } else if x < y {
            assert(x * p + ra < y * p + rb) by (nonlinear_arith)
                requires
                    x < y,
                    ra < p,
                    rb >= 0,
            ;
        } else {
            assert(y * p + rb < x * p + ra) by (nonlinear_arith)
                requires
                    y < x,
                    rb < p,
                    ra >= 0,
            ;
        }
    }
}

/// For two readable keys of one schema, the store's order is chronological
/// order with ties broken by nonce.
pub proof fn lemma_stored_order(a: Seq<u8>, b: Seq<u8>, version: u8)
    requires
        parse_key(a, version) is Ok,
        parse_key(b, version) is Ok,
    ensures
        bytes_before(a, b) == key_before(
            parse_key(a, version)->Ok_0,
            parse_key(b, version)->Ok_0,
        ),
{
    let ta = a.subrange(1, 17);
    let tb = b.subrange(1, 17);
    assert(a.drop_first().drop_last() =~= ta);
    assert(b.drop_first().drop_last() =~= tb);
    lemma_bytes_before_value(a.drop_first(), b.drop_first());
    lemma_be_value_bound(ta);
    lemma_be_value_bound(tb);
    lemma_base256_sixteen();
    let va = be_value(ta);
    let vb = be_value(tb);
    let na = a[17] as int;
    let nb = b[17] as int;
    assert((va * 256 + na < vb * 256 + nb) == (va < vb || (va == vb && na < nb))) by (nonlinear_arith)
        requires
            0 <= na < 256,
            0 <= nb < 256,
    ;
}

/// Keys of one schema are stored in chronological order, ties broken by nonce.
pub proof fn lemma_key_order(a: StorageKey, b: StorageKey)
    requires
        a.version == b.version,
    ensures
        bytes_before(key_bytes(a), key_bytes(b)) == key_before(a, b),
{
    lemma_round_trip(a);
    lemma_round_trip(b);
    lemma_stored_order(key_bytes(a), key_bytes(b), a.version);
}

/// Whatever order the writes came in, iterating a store of readable keys of
/// one schema forward (bytewise ascending) yields them in ascending
/// `(timestamp, nonce)` order.
pub proof fn lemma_forward_iteration_chronological(keys: Seq<Seq<u8>>, version: u8)
    requires
        forall|i: int| 0 <= i < keys.len() ==> (#[trigger] parse_key(keys[i], version)) is Ok,
        forall|i: int, j: int| 0 <= i < j < keys.len() ==> bytes_before(keys[i], keys[j]),
    ensures
        forall|i: int, j: int|
            0 <= i < j < keys.len() ==> key_before(
                #[trigger] parse_key(keys[i], version)->Ok_0,
                #[trigger] parse_key(keys[j], version)->Ok_0,
            ),
{
    assert forall|i: int, j: int| 0 <= i < j < keys.len() implies key_before(
        #[trigger] parse_key(keys[i], version)->Ok_0,
        #[trigger] parse_key(keys[j], version)->Ok_0,
    ) by {
        lemma_stored_order(keys[i], keys[j], version);
    }
}

/// The key of the `i`-th write through a writer that started at nonce `n0`.
pub open spec fn written_key(n0: u8, stamps: Seq<u128>, i: int) -> StorageKey {
    StorageKey { version: KEY_VERSION, nonce: ((n0 + i) % 256) as u8, timestamp: stamps[i] }
}

/// The nonce after `i` writes from `n0`, stepping with `next_nonce`.
pub open spec fn nonce_after(n0: u8, i: nat) -> u8
    decreases i,
{
    if i == 0 {
        n0
    } else {
        next_nonce(nonce_after(n0, (i - 1) as nat))
    }
}

/// The nonce that a writer hands out at its `i`-th write is `(n0 + i) mod 256`.
pub proof fn lemma_nonce_after(n0: u8, i: nat)
    ensures
        nonce_after(n0, i) == ((n0 + i) % 256) as u8,
    decreases i,
{
    if i > 0 {
        lemma_nonce_after(n0, (i - 1) as nat);
    }
}

/// Writes at non-decreasing instants through one writer, no more than the
/// nonces left before it wraps, are stored in the order they were made.
pub proof fn lemma_write_order(n0: u8, stamps: Seq<u128>)
    requires
        n0 + stamps.len() <= 256,
        forall|i: int, j: int| 0 <= i < j < stamps.len() ==> stamps[i] <= stamps[j],
    ensures
        forall|i: int, j: int|
            0 <= i < j < stamps.len() ==> bytes_before(
                #[trigger] key_bytes(written_key(n0, stamps, i)),
                #[trigger] key_bytes(written_key(n0, stamps, j)),
            ),
{
    assert forall|i: int, j: int| 0 <= i < j < stamps.len() implies bytes_before(
        #[trigger] key_bytes(written_key(n0, stamps, i)),
        #[trigger] key_bytes(written_key(n0, stamps, j)),
    ) by {
        lemma_key_order(written_key(n0, stamps, i), written_key(n0, stamps, j));
    }
}

/// Two writes at one instant get distinct keys that differ only in the nonce,
/// both read back, and both sort before any key of the next millisecond.
pub proof fn lemma_same_instant(n: u8, t: u128, later_nonce: u8)
    requires
        t < u128::MAX,
    ensures
        ({
            let first = StorageKey { version: KEY_VERSION, nonce: n, timestamp: t };
            let second = StorageKey { version: KEY_VERSION, nonce: next_nonce(n), timestamp: t };
            let third = StorageKey { version: KEY_VERSION, nonce: later_nonce, timestamp: (t + 1) as u128 };
            &&& key_bytes(first) != key_bytes(second)
            &&& key_bytes(first).subrange(0, 17) == key_bytes(second).subrange(0, 17)
            &&& parse_key(key_bytes(first), KEY_VERSION) == Ok::<StorageKey, KeyError>(first)
            &&& parse_key(key_bytes(second), KEY_VERSION) == Ok::<StorageKey, KeyError>(second)
            &&& bytes_before(key_bytes(first), key_bytes(third))
            &&& bytes_before(key_bytes(second), key_bytes(third))
        }),
{
    let first = StorageKey { version: KEY_VERSION, nonce: n, timestamp: t };
    let second = StorageKey { version: KEY_VERSION, nonce: next_nonce(n), timestamp: t };
    let third = StorageKey { version: KEY_VERSION, nonce: later_nonce, timestamp: (t + 1) as u128 };
    lemma_round_trip(first);
    lemma_round_trip(second);
    lemma_key_order(first, third);
    lemma_key_order(second, third);
    assert(key_bytes(first)[17] != key_bytes(second)[17]);
    assert(key_bytes(first).subrange(0, 17) =~= key_bytes(second).subrange(0, 17));
}

}
