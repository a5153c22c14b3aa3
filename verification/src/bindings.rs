//! Contracts for the calls this crate makes into `dashmap`, `sha2`, `hex`
//! and `lru`. Nothing here is proved; each item states what the outside
//! function's source shows.

use vstd::prelude::*;
use dashmap::DashMap;
use sha2::{Digest, Sha256};
use crate::engine::EngineNode;
use crate::subsystems::commitment::CachedBatch;
use lru::LruCache;
use std::num::NonZeroUsize;

verus! {

// ---------------------------------------------------------------------------
// dashmap
// ---------------------------------------------------------------------------

/// `dashmap::DashMap`, carried opaquely; its contents are named by
/// [`node_map_contents`].
#[verifier::external_type_specification]
#[verifier::external_body]
#[verifier::reject_recursive_types(K)]
#[verifier::reject_recursive_types(V)]
#[verifier::reject_recursive_types(S)]
pub struct ExDashMap<K, V, S>(DashMap<K, V, S>);

/// The key/value pairs that a node map holds.
pub uninterp spec fn node_map_contents(m: DashMap<[u8; 16], EngineNode>) -> Map<[u8; 16], EngineNode>;

/// `DashMap::new`: the new map holds nothing.
#[verifier::external_body]
pub(crate) fn node_map_new() -> (fresh: DashMap<[u8; 16], EngineNode>)
    ensures
        node_map_contents(fresh) =~= Map::empty(),
{
    DashMap::new()
}

/// `DashMap::insert`: afterwards the key maps to the value and every other
/// key is unchanged.
#[verifier::external_body]
pub(crate) fn node_map_insert(m: &mut DashMap<[u8; 16], EngineNode>, k: [u8; 16], v: EngineNode)
    ensures
        node_map_contents(*final(m)) == node_map_contents(*old(m)).insert(k, v),
{
    m.insert(k, v);
}

/// `DashMap::contains_key`.
#[verifier::external_body]
pub(crate) fn node_map_contains(m: &DashMap<[u8; 16], EngineNode>, k: &[u8; 16]) -> (b: bool)
    ensures
        b == node_map_contents(*m).contains_key(*k),
{
    m.contains_key(k)
}

/// `DashMap::get`, copying the value out of the returned guard: the value
/// stored under the key, or `None` when the key is absent.
#[verifier::external_body]
pub(crate) fn node_map_get(m: &DashMap<[u8; 16], EngineNode>, k: &[u8; 16]) -> (r: Option<EngineNode>)
    ensures
        r == (if node_map_contents(*m).contains_key(*k) {
            Some(node_map_contents(*m)[*k])
        } else {
            None
        }),
{
    m.get(k).map(|entry| *entry.value())
}

/// `DashMap::len`: the number of keys held.
#[verifier::external_body]
pub(crate) fn node_map_len(m: &DashMap<[u8; 16], EngineNode>) -> (n: usize)
    ensures
        n == node_map_contents(*m).dom().len(),
{
    m.len()
}

/// `DashMap::iter`, collected into key/value copies. Every held key appears
/// exactly once with its value; the order is whatever the shards yield,
/// and nothing is stated of it.
#[verifier::external_body]
pub(crate) fn node_map_entries(m: &DashMap<[u8; 16], EngineNode>) -> (r: Vec<([u8; 16], EngineNode)>)
    ensures
        r@.len() == node_map_contents(*m).dom().len(),
        forall|i: int| #![trigger r@[i]] 0 <= i < r@.len() ==> node_map_contents(*m).contains_key(r@[i].0)
            && node_map_contents(*m)[r@[i].0] == r@[i].1,
        forall|k: [u8; 16]| #[trigger] node_map_contents(*m).contains_key(k) ==> exists|i: int|
            0 <= i < r@.len() && r@[i].0 == k,
        forall|i: int, j: int|
            0 <= i < r@.len() && 0 <= j < r@.len() && i != j ==> #[trigger] r@[i].0 != #[trigger] r@[j].0,
{
    m.iter().map(|entry| (*entry.key(), *entry.value())).collect()
}

// ---------------------------------------------------------------------------
// sha2
// ---------------------------------------------------------------------------

/// The SHA-256 digest of a byte sequence.
pub uninterp spec fn sha256_digest(data: Seq<u8>) -> Seq<u8>;

/// `<Sha256 as Digest>::digest`: the 32-byte SHA-256 digest of `data`.
#[verifier::external_body]
pub(crate) fn sha256(data: &[u8]) -> (r: [u8; 32])
    ensures
        r@ == sha256_digest(data@),
{
    Sha256::digest(data).into()
}

// ---------------------------------------------------------------------------
// hex
// ---------------------------------------------------------------------------

/// The lowercase hex digit for a nibble.
pub open spec fn hex_digit(n: u8) -> char {
    if n < 10 {
        (48 + n) as char
    } else {
        (87 + n) as char
    }
}

/// Lowercase hex rendering: two digits per byte, high nibble first.
pub open spec fn hex_chars(bytes: Seq<u8>) -> Seq<char>
    decreases bytes.len(),
{
    if bytes.len() == 0 {
        Seq::empty()
    } else {
        seq![hex_digit(bytes[0] / 16), hex_digit(bytes[0] % 16)] + hex_chars(bytes.drop_first())
    }
}

/// `hex::encode`: the lowercase hex rendering of `bytes`, two digits per
/// byte with the high nibble first (the crate's `HEX_CHARS_LOWER` table).
#[verifier::external_body]
pub(crate) fn hex_encode(bytes: &[u8; 16]) -> (s: String)
    ensures
        s@ == hex_chars(bytes@),
{
    hex::encode(bytes)
}

// ---------------------------------------------------------------------------
// lru
// ---------------------------------------------------------------------------

/// `lru::LruCache`, carried opaquely; its entries are named by
/// [`batch_cache_entries`] and its capacity by [`batch_cache_cap`].
#[verifier::external_type_specification]
#[verifier::external_body]
#[verifier::reject_recursive_types(K)]
#[verifier::reject_recursive_types(V)]
#[verifier::reject_recursive_types(S)]
pub struct ExLruCache<K, V, S>(LruCache<K, V, S>);

/// The hash builder `lru::LruCache` uses by default.
#[verifier::external_type_specification]
#[verifier::external_body]
pub struct ExLruHasher(lru::DefaultHasher);

/// The entries of a batch cache, most recently used first.
pub uninterp spec fn batch_cache_entries(c: LruCache<[u8; 32], CachedBatch>) -> Seq<([u8; 32], CachedBatch)>;

/// The capacity a batch cache was made with.
pub uninterp spec fn batch_cache_cap(c: LruCache<[u8; 32], CachedBatch>) -> nat;

/// Some entry of `s` has key `k`.
pub open spec fn lru_has<V>(s: Seq<([u8; 32], V)>, k: [u8; 32]) -> bool {
    exists|i: int| 0 <= i < s.len() && s[i].0 == k
}

/// The entries of `s` whose key is not `k`, in order.
pub open spec fn lru_without<V>(s: Seq<([u8; 32], V)>, k: [u8; 32]) -> Seq<([u8; 32], V)> {
    s.filter(|e: ([u8; 32], V)| e.0 != k)
}

/// The value stored under `k` (its first entry).
pub open spec fn lru_value<V>(s: Seq<([u8; 32], V)>, k: [u8; 32]) -> V {
    s.filter(|e: ([u8; 32], V)| e.0 == k)[0].1
}

/// The entries after `put(k, v)` on a cache of capacity `cap`: the pair
/// goes to the front; an existing entry for `k` is dropped, or else, when
/// the cache is full, the least recently used entry is evicted.
pub open spec fn lru_put<V>(s: Seq<([u8; 32], V)>, k: [u8; 32], v: V, cap: nat) -> Seq<([u8; 32], V)> {
    seq![(k, v)] + (if lru_has(s, k) {
        lru_without(s, k)
    } else if s.len() == cap {
        s.drop_last()
    } else {
        s
    })
}

/// The entries after `get(k)`: a present key moves to the front.
pub open spec fn lru_touch<V>(s: Seq<([u8; 32], V)>, k: [u8; 32]) -> Seq<([u8; 32], V)> {
    if lru_has(s, k) {
        seq![(k, lru_value(s, k))] + lru_without(s, k)
    } else {
        s
    }
}

/// `LruCache::new`: an empty cache of capacity `cap` (`cap > 0`, which the
/// source's `NonZeroUsize` demands).
#[verifier::external_body]
pub(crate) fn batch_cache_new(cap: usize) -> (c: LruCache<[u8; 32], CachedBatch>)
    requires
        cap > 0,
    ensures
        batch_cache_entries(c) == Seq::<([u8; 32], CachedBatch)>::empty(),
        batch_cache_cap(c) == cap,
{
    LruCache::new(NonZeroUsize::new(cap).unwrap())
}

/// `LruCache::put`: updates an existing key's value and moves it to the
/// front; otherwise evicts the tail when full and inserts at the front.
#[verifier::external_body]
pub(crate) fn batch_cache_put(c: &mut LruCache<[u8; 32], CachedBatch>, k: [u8; 32], v: CachedBatch)
    ensures
        batch_cache_entries(*final(c)) == lru_put(batch_cache_entries(*old(c)), k, v, batch_cache_cap(*old(c))),
        batch_cache_cap(*final(c)) == batch_cache_cap(*old(c)),
{
    c.put(k, v);
}

/// `LruCache::get`: the value under `k`, moved to the front; `None` and
/// no change when absent.
#[verifier::external_body]
pub(crate) fn batch_cache_get<'a>(c: &'a mut LruCache<[u8; 32], CachedBatch>, k: &[u8; 32]) -> (r: Option<
    &'a CachedBatch,
>)
    ensures
        batch_cache_entries(*final(c)) == lru_touch(batch_cache_entries(*old(c)), *k),
        batch_cache_cap(*final(c)) == batch_cache_cap(*old(c)),
        lru_has(batch_cache_entries(*old(c)), *k) ==> (r matches Some(x) && *x == lru_value(
            batch_cache_entries(*old(c)),
            *k,
        )),
        !lru_has(batch_cache_entries(*old(c)), *k) ==> r is None,
{
    c.get(k)
}

/// `LruCache::contains`: whether `k` is held, without touching recency.
#[verifier::external_body]
pub(crate) fn batch_cache_contains(c: &LruCache<[u8; 32], CachedBatch>, k: &[u8; 32]) -> (b: bool)
    ensures
        b == lru_has(batch_cache_entries(*c), *k),
{
    c.contains(k)
}

} // verus!
