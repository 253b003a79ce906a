use crate::exact::ExpectedValue;
use rustc_hash::FxBuildHasher;
use vstd::prelude::*;

verus! {

/// `papaya::HashMap`, a hash map that many threads can share. It is used here from one
/// thread at a time, and what it holds is what `memo_entries` says.
#[verifier::external_type_specification]
#[verifier::external_body]
#[verifier::reject_recursive_types(K)]
#[verifier::reject_recursive_types(V)]
#[verifier::reject_recursive_types(S)]
pub struct ExPapayaHashMap<K, V, S>(papaya::HashMap<K, V, S>);

/// `rustc_hash::FxBuildHasher`, which makes the hashers of the map: fast ones, the same in
/// every run.
#[verifier::external_type_specification]
#[verifier::external_body]
pub struct ExFxBuildHasher(FxBuildHasher);

/// What a `papaya::HashMap` of values holds: under each key that it has, the number that the
/// value there stands for.
pub uninterp spec fn memo_entries(m: papaya::HashMap<u32, ExpectedValue, FxBuildHasher>) -> Map<u32, real>;

/// `papaya::HashMap::with_hasher`: a map that holds nothing.
#[verifier::external_body]
fn memo_new() -> (m: papaya::HashMap<u32, ExpectedValue, FxBuildHasher>)
    ensures
        memo_entries(m).dom() =~= Set::empty(),
{
    papaya::HashMap::with_hasher(FxBuildHasher)
}

/// `HashMapRef::get` on a pinned map, with a copy of what it finds: the value under `key`,
/// or `None` where the map has no such key.
#[verifier::external_body]
fn memo_get(m: &papaya::HashMap<u32, ExpectedValue, FxBuildHasher>, key: u32) -> (r: Option<ExpectedValue>)
    ensures
        r is Some <==> memo_entries(*m).contains_key(key),
        r matches Some(v) ==> v.value() == memo_entries(*m)[key],
{
    let pinned = m.pin();
    match pinned.get(&key) {
        Some(value) => Some(value.duplicate()),
        None => None,
    }
}

/// `HashMapRef::insert` on a pinned map: afterwards the map holds `value` under `key` and
/// everything else as before.
#[verifier::external_body]
fn memo_insert(m: &mut papaya::HashMap<u32, ExpectedValue, FxBuildHasher>, key: u32, value: ExpectedValue)
    ensures
        memo_entries(*final(m)) == memo_entries(*old(m)).insert(key, value.value()),
{
    m.pin().insert(key, value);
}

/// `HashMapRef::clear` on a pinned map: afterwards the map holds nothing.
#[verifier::external_body]
fn memo_clear(m: &mut papaya::HashMap<u32, ExpectedValue, FxBuildHasher>)
    ensures
        memo_entries(*final(m)).dom() =~= Set::empty(),
{
    m.pin().clear();
}

/// Values that were worked out once and are kept for the next time they are asked for, each
/// under a key.
pub struct Cache {
    memo: papaya::HashMap<u32, ExpectedValue, FxBuildHasher>,
}

impl View for Cache {
    type V = Map<u32, real>;

    closed spec fn view(&self) -> Map<u32, real> {
        memo_entries(self.memo)
    }
}

impl Cache {
    /// A cache that holds nothing.
    pub fn new() -> (cache: Cache)
        ensures
            cache@.dom() =~= Set::empty(),
    {
        Cache { memo: memo_new() }
    }

    /// Empties the cache.
    pub fn clear(&mut self)
        ensures
            final(self)@.dom() =~= Set::empty(),
    {
        memo_clear(&mut self.memo);
    }

    /// A copy of the value under `key`, where there is one.
    pub fn get(&self, key: u32) -> (r: Option<ExpectedValue>)
        ensures
            r is Some <==> self@.contains_key(key),
            r matches Some(v) ==> v.value() == self@[key],
    {
        memo_get(&self.memo, key)
    }

    /// Keeps `value` under `key`, in place of what was there.
    pub fn insert(&mut self, key: u32, value: ExpectedValue)
        ensures
            final(self)@ == old(self)@.insert(key, value.value()),
    {
        memo_insert(&mut self.memo, key, value);
    }
}

/// Empties the cache.
pub fn clear_cache(cache: &mut Cache)
    ensures
        final(cache)@.dom() =~= Set::empty(),
{
    cache.clear();
}

} // verus!
