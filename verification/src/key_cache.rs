use vstd::prelude::*;
use dashmap::DashMap;
use crate::types::{Digest, KeyType};
use crate::keys::KeySlot;

verus! {

/// What the wallet's logic reads of a derived spending key.
#[derive(Clone, Copy, Debug, PartialEq, Eq, Structural)]
pub struct KeyInfo {
    pub key_type: KeyType,
    /// The preimage that incoming UTXOs name as their receiver.
    pub privacy_preimage: Digest,
    /// The hash of the lock script of the key's receiving address.
    pub lock_script_hash: Digest,
}

#[verifier::external_type_specification]
#[verifier::external_body]
#[verifier::reject_recursive_types(K)]
#[verifier::reject_recursive_types(V)]
#[verifier::reject_recursive_types(S)]
pub struct ExDashMap<K, V, S>(DashMap<K, V, S>);

/// A concurrent map from derivation index to key.
pub type KeyMap = DashMap<u64, KeyInfo>;

/// The entries of a concurrent map of keys.
pub uninterp spec fn cache_entries(m: KeyMap) -> Map<u64, KeyInfo>;

/// Calls `DashMap::new`: the map starts empty.
#[verifier::external_body]
fn new_key_map() -> (res: KeyMap)
    ensures
        cache_entries(res) =~= Map::empty(),
{
    DashMap::new()
}

/// Calls `DashMap::insert`: the entry for `index` becomes `key`, and the
/// previous entry for `index`, if any, is returned.
#[verifier::external_body]
fn key_map_insert(m: &mut KeyMap, index: u64, key: KeyInfo) -> (prev: Option<KeyInfo>)
    ensures
        cache_entries(*final(m)) == cache_entries(*old(m)).insert(index, key),
        prev == if cache_entries(*old(m)).dom().contains(index) { Some(cache_entries(*old(m))[index]) } else { None },
{
    m.insert(index, key)
}

/// Calls `DashMap::get` and copies the value out of the returned guard: the
/// entry for `index`, if any.
#[verifier::external_body]
fn key_map_get(m: &KeyMap, index: u64) -> (res: Option<KeyInfo>)
    ensures
        res == if cache_entries(*m).dom().contains(index) { Some(cache_entries(*m)[index]) } else { None },
{
    match m.get(&index) {
        Some(r) => Some(*r.value()),
        None => None,
    }
}

/// A cache of derived keys, one map per key type, keyed by derivation index.
pub struct KeyCache {
    symmetric_keys: KeyMap,
    generation_spending_keys: KeyMap,
    ec_hybrid_keys: KeyMap,
    viewing_address: KeyMap,
}

impl KeyCache {
    /// The cached keys of one type.
    pub closed spec fn entries(&self, t: KeyType) -> Map<u64, KeyInfo> {
        match t {
            KeyType::Generation => cache_entries(self.generation_spending_keys),
            KeyType::Symmetric => cache_entries(self.symmetric_keys),
            KeyType::EcHybrid => cache_entries(self.ec_hybrid_keys),
            KeyType::ViewingAddress => cache_entries(self.viewing_address),
        }
    }

    /// An empty cache.
    pub fn new() -> (res: Self)
        ensures
            forall|t: KeyType| #[trigger] res.entries(t) == Map::<u64, KeyInfo>::empty(),
    {
        KeyCache {
            symmetric_keys: new_key_map(),
            generation_spending_keys: new_key_map(),
            ec_hybrid_keys: new_key_map(),
            viewing_address: new_key_map(),
        }
    }

    /// What a lookup of type `t` at `index` gives: the cached key, if any.
    pub open spec fn lookup(&self, t: KeyType, index: u64) -> Option<KeyInfo> {
        if self.entries(t).dom().contains(index) { Some(self.entries(t)[index]) } else { None }
    }

    /// `after` is `before` with `key` cached at `index` under its type.
    pub open spec fn added(before: KeyCache, after: KeyCache, index: u64, key: KeyInfo) -> bool {
        &&& after.entries(key.key_type) == before.entries(key.key_type).insert(index, key)
        &&& forall|t: KeyType| t != key.key_type ==> #[trigger] after.entries(t) == before.entries(t)
    }

    /// Cache `key` as the key of its type at derivation index `index`.
    pub fn add_key(&mut self, index: u64, key: KeyInfo)
        ensures
            final(self).entries(key.key_type) == old(self).entries(key.key_type).insert(index, key),
            forall|t: KeyType| t != key.key_type ==> #[trigger] final(self).entries(t) == old(self).entries(t),
            KeyCache::added(*old(self), *final(self), index, key),
    {
        match key.key_type {
            KeyType::Generation => {
                key_map_insert(&mut self.generation_spending_keys, index, key);
            },
            KeyType::Symmetric => {
                key_map_insert(&mut self.symmetric_keys, index, key);
            },
            KeyType::EcHybrid => {
                key_map_insert(&mut self.ec_hybrid_keys, index, key);
            },
            KeyType::ViewingAddress => {
                key_map_insert(&mut self.viewing_address, index, key);
            },
        }
    }

    /// The cached key of type `t` at derivation index `index`, if any.
    pub fn get_key(&self, t: KeyType, index: u64) -> (res: Option<KeyInfo>)
        ensures
            res == if self.entries(t).dom().contains(index) { Some(self.entries(t)[index]) } else { None },
            res == self.lookup(t, index),
    {
        match t {
            KeyType::Generation => key_map_get(&self.generation_spending_keys, index),
            KeyType::Symmetric => key_map_get(&self.symmetric_keys, index),
            KeyType::EcHybrid => key_map_get(&self.ec_hybrid_keys, index),
            KeyType::ViewingAddress => key_map_get(&self.viewing_address, index),
        }
    }
}

/// What the cache holds for a key position: digest-seeded keys are never
/// cached; regular ones are looked up by type and index.
pub open spec fn cached_for(c: KeyCache, s: KeySlot) -> Option<KeyInfo> {
    if !s.from_digest && c.entries(s.key_type).dom().contains(s.index) {
        Some(c.entries(s.key_type)[s.index])
    } else {
        None
    }
}

impl KeyCache {
    /// Look up the keys of some positions: `None` for a position whose key
    /// must be derived.
    pub fn lookup_slots(&self, slots: &Vec<KeySlot>) -> (res: Vec<Option<KeyInfo>>)
        ensures
            res@.len() == slots@.len(),
            forall|i: int| 0 <= i < slots@.len() ==> #[trigger] res@[i] == cached_for(*self, slots@[i]),
    {
        let mut res: Vec<Option<KeyInfo>> = Vec::new();
        let mut i: usize = 0;
        while i < slots.len()
            invariant
                i <= slots@.len(),
                res@.len() == i,
                forall|j: int| 0 <= j < i ==> #[trigger] res@[j] == cached_for(*self, slots@[j]),
            decreases slots@.len() - i,
        {
            let s = slots[i];
            if s.from_digest {
                res.push(None);
            } else {
                res.push(self.get_key(s.key_type, s.index));
            }
            i = i + 1;
        }
        res
    }
}

/// A key read back from the cache is the one last added for its type and
/// index: after `add_key(index, key)`, `get_key(key.key_type, index)` gives
/// `key`, and a lookup of any other type or index gives what it gave before.
pub proof fn law_cache_read_after_write(
    before: KeyCache,
    after: KeyCache,
    index: u64,
    key: KeyInfo,
    t: KeyType,
    other: u64,
)
    requires
        KeyCache::added(before, after, index, key),
    ensures
        after.lookup(key.key_type, index) == Some(key),
        (t != key.key_type || other != index) ==> after.lookup(t, other) == before.lookup(t, other),
{
    if t == key.key_type && other != index {
        assert(after.entries(t) == before.entries(t).insert(index, key));
    } else if t != key.key_type {
        assert(after.entries(t) == before.entries(t));
    }
}

} // verus!
