//! Declarations of the outside types the ring stores, and the calls into
//! dashmap and fxhash that the ring makes.
use vstd::prelude::*;

use dashmap::{DashMap, DashSet};
use fxhash::FxBuildHasher;

verus! {

#[verifier::external_type_specification]
#[verifier::external_body]
#[verifier::reject_recursive_types(K)]
#[verifier::reject_recursive_types(V)]
#[verifier::reject_recursive_types(S)]
pub struct ExDashMap<K, V, S>(DashMap<K, V, S>);

#[verifier::external_type_specification]
#[verifier::external_body]
#[verifier::reject_recursive_types(K)]
#[verifier::reject_recursive_types(S)]
pub struct ExDashSet<K, S>(DashSet<K, S>);

#[verifier::external_type_specification]
#[verifier::external_body]
#[verifier::reject_recursive_types(H)]
pub struct ExBuildHasherDefault<H>(std::hash::BuildHasherDefault<H>);

#[verifier::external_type_specification]
#[verifier::external_body]
pub struct ExFxHasher(fxhash::FxHasher);

#[verifier::external_type_specification]
#[verifier::external_body]
#[verifier::reject_recursive_types(R)]
#[verifier::reject_recursive_types(T)]
pub struct ExRwLock<R, T: ?Sized>(parking_lot::lock_api::RwLock<R, T>);

#[verifier::external_type_specification]
#[verifier::external_body]
pub struct ExRawRwLock(parking_lot::RawRwLock);

/// The lookup index behind its reader-writer lock.
pub type IndexLock = parking_lot::RwLock<Vec<u32>>;

/// The map from virtual-node hash to member name.
pub type CircleMap = DashMap<u32, String, FxBuildHasher>;

/// The set of member names.
pub type MemberSet = DashSet<String, FxBuildHasher>;

/// The 32-bit FxHash of a string.
pub uninterp spec fn fx_hash32(s: Seq<char>) -> u32;

/// What a circle map holds: virtual-node hash to member name.
pub uninterp spec fn circle_entries(m: CircleMap) -> Map<u32, Seq<char>>;

/// What a member set holds.
pub uninterp spec fn member_entries(s: MemberSet) -> Set<Seq<char>>;

/// What the locked lookup index holds.
pub uninterp spec fn index_entries(l: IndexLock) -> Seq<u32>;

/// Relies on parking_lot::RwLock::new: the lock holds the given vector.
#[verifier::external_body]
pub(crate) fn index_lock_new(v: Vec<u32>) -> (r: IndexLock)
    ensures
        index_entries(r) == v@,
{
    parking_lot::RwLock::new(v)
}

/// Relies on parking_lot::RwLock::write: the vector under the write lock is
/// replaced.
#[verifier::external_body]
pub(crate) fn index_lock_replace(l: &mut IndexLock, v: Vec<u32>)
    ensures
        index_entries(*final(l)) == v@,
{
    *l.write() = v;
}

/// Relies on parking_lot::RwLock::read: the length of the vector, read
/// under the read lock.
#[verifier::external_body]
pub(crate) fn index_lock_len(l: &IndexLock) -> (r: usize)
    ensures
        r == index_entries(*l).len(),
{
    l.read().len()
}

/// Relies on parking_lot::RwLock::read: one entry of the vector, read under
/// the read lock.
#[verifier::external_body]
pub(crate) fn index_lock_at(l: &IndexLock, i: usize) -> (r: u32)
    requires
        i < index_entries(*l).len(),
    ensures
        r == index_entries(*l)[i as int],
{
    l.read()[i]
}

/// Relies on fxhash::hash32: a hash of the string's contents alone.
#[verifier::external_body]
pub(crate) fn hash_str(key: &str) -> (r: u32)
    ensures
        r == fx_hash32(key@),
{
    fxhash::hash32(key)
}

/// Relies on DashMap::default: a new map is empty.
#[verifier::external_body]
pub(crate) fn circle_new() -> (r: CircleMap)
    ensures
        circle_entries(r).dom() == Set::<u32>::empty(),
{
    DashMap::default()
}

/// Relies on DashMap::insert: the key maps to the value afterwards, the
/// other entries are kept.
#[verifier::external_body]
pub(crate) fn circle_insert(m: &mut CircleMap, k: u32, v: String)
    ensures
        circle_entries(*final(m)) == circle_entries(*old(m)).insert(k, v@),
{
    m.insert(k, v);
}

/// Relies on DashMap::remove: the key is gone afterwards, the other entries
/// are kept.
#[verifier::external_body]
pub(crate) fn circle_remove(m: &mut CircleMap, k: u32)
    ensures
        circle_entries(*final(m)) == circle_entries(*old(m)).remove(k),
{
    m.remove(&k);
}

/// Relies on DashMap::len: the number of entries.
#[verifier::external_body]
pub(crate) fn circle_len(m: &CircleMap) -> (r: usize)
    ensures
        r == circle_entries(*m).len(),
{
    m.len()
}

/// Relies on DashMap::get: the value under the key, if there is one.
#[verifier::external_body]
pub(crate) fn circle_get(m: &CircleMap, k: u32) -> (r: Option<String>)
    ensures
        match r {
            Some(v) => circle_entries(*m).contains_key(k) && v@ == circle_entries(*m)[k],
            None => !circle_entries(*m).contains_key(k),
        },
{
    m.get(&k).map(|e| e.value().clone())
}

/// Relies on DashMap::iter: each key of the map once, in no given order.
#[verifier::external_body]
pub(crate) fn circle_keys(m: &CircleMap) -> (r: Vec<u32>)
    ensures
        r@.no_duplicates(),
        forall|k: u32| r@.contains(k) <==> circle_entries(*m).contains_key(k),
{
    m.iter().map(|e| *e.key()).collect()
}

/// Relies on DashSet::default: a new set is empty.
#[verifier::external_body]
pub(crate) fn members_new() -> (r: MemberSet)
    ensures
        member_entries(r) == Set::<Seq<char>>::empty(),
{
    DashSet::default()
}

/// Relies on DashSet::insert: true when the value was not there before.
#[verifier::external_body]
pub(crate) fn members_insert(s: &mut MemberSet, v: String) -> (r: bool)
    ensures
        member_entries(*final(s)) == member_entries(*old(s)).insert(v@),
        r == !member_entries(*old(s)).contains(v@),
{
    s.insert(v)
}

/// Relies on DashSet::remove: `Some` when the value was there before.
#[verifier::external_body]
pub(crate) fn members_remove(s: &mut MemberSet, v: &str) -> (r: bool)
    ensures
        member_entries(*final(s)) == member_entries(*old(s)).remove(v@),
        r == member_entries(*old(s)).contains(v@),
{
    s.remove(v).is_some()
}

/// Relies on DashSet::contains.
#[verifier::external_body]
pub(crate) fn members_contains(s: &MemberSet, v: &str) -> (r: bool)
    ensures
        r == member_entries(*s).contains(v@),
{
    s.contains(v)
}

/// Relies on DashSet::len: the number of values.
#[verifier::external_body]
pub(crate) fn members_len(s: &MemberSet) -> (r: usize)
    ensures
        r == member_entries(*s).len(),
{
    s.len()
}

/// Relies on DashSet::iter: each value of the set once, in no given order.
#[verifier::external_body]
pub(crate) fn members_list(s: &MemberSet) -> (r: Vec<String>)
    ensures
        r@.map_values(|x: String| x@).no_duplicates(),
        forall|x: Seq<char>| r@.map_values(|y: String| y@).contains(x) <==> member_entries(*s).contains(x),
{
    s.iter().map(|e| e.key().clone()).collect()
}

/// Relies on slice::sort_unstable: the same values, in ascending order.
#[verifier::external_body]
pub(crate) fn sort_hashes(v: &mut Vec<u32>)
    ensures
        final(v)@.to_multiset() == old(v)@.to_multiset(),
        forall|i: int, j: int| 0 <= i <= j < final(v)@.len() ==> final(v)@[i] <= final(v)@[j],
{
    v.sort_unstable();
}

} // verus!
