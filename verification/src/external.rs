//! Declarations of the outside collection types the runtime stores its
//! tables in, and the trusted wrappers through which the verified code
//! calls them.
use vstd::prelude::*;

use crate::retain_release::SideTableEntry;

verus! {

#[verifier::external_type_specification]
#[verifier::external_body]
#[verifier::reject_recursive_types(K)]
#[verifier::reject_recursive_types(V)]
#[verifier::reject_recursive_types(S)]
pub struct ExDashMap<K, V, S>(dashmap::DashMap<K, V, S>);


/// The intern map type: a name keyed concurrent map.
pub type StrIndex = dashmap::DashMap<String, usize>;

/// A list of weak-reference locations, stored in a `SmallVec` with no
/// inline capacity (most objects have no weak references).
#[verifier::external_body]
pub struct WeakSlots {
    slots: smallvec::SmallVec<[usize; 0]>,
}

/// The side-table map type: object address → retain bookkeeping.
pub type SideMap = dashmap::DashMap<usize, SideTableEntry>;

/// What the side-table map holds: for each object address, its retain
/// count, whether it is deallocating, and its weak-reference locations.
pub uninterp spec fn side_map_contents(m: SideMap) -> Map<usize, (usize, bool, Seq<usize>)>;

/// What a string-keyed intern map holds: each key's characters mapped to
/// its value.
pub uninterp spec fn str_index_contents(m: StrIndex) -> Map<Seq<char>, usize>;

/// The addresses held by a list of weak-reference locations, in order.
pub uninterp spec fn weak_slots(v: WeakSlots) -> Seq<usize>;

/// `DashMap::new`: the new map holds nothing.
#[verifier::external_body]
pub(crate) fn str_index_new() -> (r: StrIndex)
    ensures
        str_index_contents(r).dom().is_empty(),
{
    dashmap::DashMap::new()
}

/// `DashMap::get`, copying out the value: `Some` exactly when the key is
/// present, with the value stored under it.
#[verifier::external_body]
pub(crate) fn str_index_get(m: &StrIndex, key: &str) -> (r: Option<usize>)
    ensures
        r == (if str_index_contents(*m).dom().contains(key@) {
            Some(str_index_contents(*m)[key@])
        } else {
            None::<usize>
        }),
{
    m.get(key).map(|e| *e.value())
}

/// `DashMap::insert`: afterwards the key maps to the new value and every
/// other key is unchanged.
#[verifier::external_body]
pub(crate) fn str_index_insert(m: &mut StrIndex, key: String, value: usize)
    ensures
        str_index_contents(*final(m)) == str_index_contents(*old(m)).insert(key@, value),
{
    m.insert(key, value);
}

/// `SmallVec::new`: an empty list.
#[verifier::external_body]
pub(crate) fn weak_slots_new() -> (v: WeakSlots)
    ensures
        weak_slots(v).len() == 0,
{
    WeakSlots { slots: smallvec::SmallVec::new() }
}

/// `SmallVec::push`: appends at the end.
#[verifier::external_body]
pub(crate) fn weak_slots_push(v: &mut WeakSlots, x: usize)
    ensures
        weak_slots(*final(v)) == weak_slots(*old(v)).push(x),
{
    v.slots.push(x);
}

/// `SmallVec::retain`, keeping the locations other than `loc`, in order.
#[verifier::external_body]
pub(crate) fn weak_slots_remove(v: &mut WeakSlots, loc: usize)
    ensures
        weak_slots(*final(v)) == crate::retain_release::without(weak_slots(*old(v)), loc),
{
    v.slots.retain(|w: &mut usize| crate::retain_release::keeps_slot(w, loc));
}

/// `SmallVec::into_vec`: the same locations, in order.
#[verifier::external_body]
pub(crate) fn weak_slots_into_vec(v: WeakSlots) -> (r: Vec<usize>)
    ensures
        r@ == weak_slots(v),
{
    v.slots.into_vec()
}

/// `DashMap::new`: the new map holds nothing.
#[verifier::external_body]
pub(crate) fn side_map_new() -> (r: SideMap)
    ensures
        side_map_contents(r).dom().is_empty(),
{
    dashmap::DashMap::new()
}

/// `DashMap::remove`, keeping the value: `Some` exactly when the key was
/// present, with the value stored under it; afterwards the key is absent
/// and every other key unchanged.
#[verifier::external_body]
pub(crate) fn side_map_remove(m: &mut SideMap, key: usize) -> (r: Option<SideTableEntry>)
    ensures
        side_map_contents(*final(m)) == side_map_contents(*old(m)).remove(key),
        r is Some <==> side_map_contents(*old(m)).dom().contains(key),
        r matches Some(e) ==> e.view() == side_map_contents(*old(m))[key],
{
    m.remove(&key).map(|kv| kv.1)
}

/// `DashMap::insert`: afterwards the key maps to the new value and every
/// other key is unchanged.
#[verifier::external_body]
pub(crate) fn side_map_insert(m: &mut SideMap, key: usize, value: SideTableEntry)
    ensures
        side_map_contents(*final(m)) == side_map_contents(*old(m)).insert(key, value.view()),
{
    m.insert(key, value);
}

/// `DashMap::get`, reading the retain count: `Some` exactly when the key is
/// present, with the count stored under it.
#[verifier::external_body]
pub(crate) fn side_map_count(m: &SideMap, key: usize) -> (r: Option<usize>)
    ensures
        r == (if side_map_contents(*m).dom().contains(key) {
            Some(side_map_contents(*m)[key].0)
        } else {
            None::<usize>
        }),
{
    m.get(&key).map(|e| e.retain_count)
}

} // verus!
