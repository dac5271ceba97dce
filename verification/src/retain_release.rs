//! Reference counting, deallocation and weak references.
//!
//! A side table keyed by object address holds each object's retain count,
//! a `deallocating` flag and the locations of weak references to it.  An
//! object absent from the table has an implicit retain count of 1 and is
//! not deallocating.
//!
//! Releasing an object to zero marks it deallocating and hands back its
//! weak-reference locations; whoever runs the deallocation zeroes those
//! locations, sends `-dealloc`, and then removes the object's entry with
//! [`objc_release_finished`].  The slots of weak references live in the
//! caller's memory: the functions here take the value a slot holds and
//! return the value to store into it.
use vstd::prelude::*;

use crate::autorelease::{objc_autorelease, AutoreleasePools};
use crate::external::{
    side_map_contents, side_map_count, side_map_insert, side_map_new, side_map_remove, weak_slots, weak_slots_into_vec,
    weak_slots_new, weak_slots_push, weak_slots_remove, SideMap, WeakSlots,
};
use crate::types::{Id, ObjcPtr};

verus! {

/// An object's retain bookkeeping.
pub struct SideTableEntry {
    /// The retain count.
    pub retain_count: usize,
    /// Set once the count has dropped to zero; a deallocating object cannot
    /// be retained again.
    pub deallocating: bool,
    /// Locations of weak references to the object.
    pub weak_locations: WeakSlots,
}

impl SideTableEntry {
    /// The entry as plain values: count, flag, weak locations.
    pub open spec fn view(&self) -> (usize, bool, Seq<usize>) {
        (self.retain_count, self.deallocating, weak_slots(self.weak_locations))
    }
}

/// The side table.
pub struct SideTable {
    pub table: SideMap,
}

/// What releasing an object requires of the caller.
pub enum ReleaseAction {
    /// Nothing more to do.
    Nothing,
    /// The object is to be deallocated: zero these weak-reference
    /// locations, send it `-dealloc`, then call `objc_release_finished`.
    Deallocate(Vec<usize>),
}

/// The bookkeeping the table stands for at address `k`: the stored entry,
/// or an implicit count of 1 with no weak references.
pub open spec fn entry_in(m: Map<usize, (usize, bool, Seq<usize>)>, k: usize) -> (usize, bool, Seq<usize>) {
    if m.dom().contains(k) {
        m[k]
    } else {
        (1, false, Seq::empty())
    }
}

/// The weak locations `w` without `loc`.
pub open spec fn without(w: Seq<usize>, loc: usize) -> Seq<usize> {
    w.filter(|x: usize| x != loc)
}

/// `v1` and `r` are what retaining `obj` in a table holding `v0` gives: the
/// count is incremented (an absent object gets an entry with count 2) and
/// `obj` returned, unless it is `nil` or deallocating (then `None` and no
/// change).
pub open spec fn retains(v0: Map<usize, (usize, bool, Seq<usize>)>, obj: Id, v1: Map<usize, (usize, bool, Seq<usize>)>, r: Id) -> bool {
    match obj {
        None => r is None && v1 == v0,
        Some(p) => {
            let (c, d, w) = entry_in(v0, p.0);
            if d {
                r is None && v1 == v0
            } else {
                r == obj && v1 == v0.insert(p.0, ((c + 1) as usize, false, w))
            }
        },
    }
}

/// `v1` and `r` are what releasing `obj` in a table holding `v0` gives.
pub open spec fn releases(v0: Map<usize, (usize, bool, Seq<usize>)>, obj: Id, v1: Map<usize, (usize, bool, Seq<usize>)>, r: ReleaseAction) -> bool {
    match obj {
        None => r is Nothing && v1 == v0,
        Some(p) => if !v0.dom().contains(p.0) {
            r matches ReleaseAction::Deallocate(w) && w@.len() == 0 && v1 == v0
        } else {
            let (c, d, w) = v0[p.0];
            if d {
                r is Nothing && v1 == v0
            } else if c <= 1 {
                &&& r matches ReleaseAction::Deallocate(locs) && locs@ == w
                &&& v1 == v0.insert(p.0, (c, true, Seq::empty()))
            } else {
                r is Nothing && v1 == v0.insert(p.0, ((c - 1) as usize, false, w))
            }
        },
    }
}

impl SideTable {
    /// What the table holds.
    pub open spec fn view(&self) -> Map<usize, (usize, bool, Seq<usize>)> {
        side_map_contents(self.table)
    }

    /// The bookkeeping of the object at address `k`.
    pub open spec fn entry_of(&self, k: usize) -> (usize, bool, Seq<usize>) {
        entry_in(self.view(), k)
    }

    /// An empty side table.
    pub fn new() -> (r: SideTable)
        ensures
            r.view().dom().is_empty(),
    {
        SideTable { table: side_map_new() }
    }
}

/// Whether weak location `w` is to be kept when `loc` is removed.
pub fn keeps_slot(w: &usize, loc: usize) -> (r: bool)
    ensures
        r == (*w != loc),
{
    *w != loc
}

/// Take the entry of `k` out of the table, or a fresh one (count 1) if it
/// has none.
fn take_entry(st: &mut SideTable, k: usize) -> (r: SideTableEntry)
    ensures
        r.view() == old(st).entry_of(k),
        final(st).view() == old(st).view().remove(k),
{
    match side_map_remove(&mut st.table, k) {
        Some(e) => e,
        None => SideTableEntry { retain_count: 1, deallocating: false, weak_locations: weak_slots_new() },
    }
}

/// Increment the retain count of `obj` and return it; return `None` if the
/// object has begun deallocation.
pub fn objc_retain(st: &mut SideTable, obj: Id) -> (r: Id)
    requires
        obj matches Some(p) ==> old(st).entry_of(p.0).0 < usize::MAX,
    ensures
        retains(old(st).view(), obj, final(st).view(), r),
{
    let p = match obj {
        None => {
            return None;
        },
        Some(p) => p,
    };
    let k = p.0;
    let ghost v0 = st.view();
    let mut e = take_entry(st, k);
    if e.deallocating {
        side_map_insert(&mut st.table, k, e);
        proof {
            assert(v0.dom().contains(k));
            assert(st.view() =~= v0);
        }
        return None;
    }
    e.retain_count = e.retain_count + 1;
    side_map_insert(&mut st.table, k, e);
    proof {
        assert(st.view() =~= v0.remove(k).insert(k, e.view()));
        assert(st.view() =~= v0.insert(k, e.view()));
    }
    Some(p)
}

/// Decrement the retain count of `obj`.
///
/// An object whose count is 1 or less (an object absent from the table
/// counts 1) is to be deallocated: it is marked deallocating and its weak
/// locations are handed back, and the table keeps its entry until
/// `objc_release_finished`.  Releasing a deallocating object or `nil` does
/// nothing.
pub fn objc_release(st: &mut SideTable, obj: Id) -> (r: ReleaseAction)
    ensures
        releases(old(st).view(), obj, final(st).view(), r),
{
    let p = match obj {
        None => {
            return ReleaseAction::Nothing;
        },
        Some(p) => p,
    };
    let k = p.0;
    let ghost v0 = st.view();
    match side_map_remove(&mut st.table, k) {
        None => {
            proof {
                assert(st.view() =~= v0);
            }
            return ReleaseAction::Deallocate(Vec::new());
        },
        Some(mut e) => {
            if e.deallocating {
                side_map_insert(&mut st.table, k, e);
                proof {
                    assert(st.view() =~= v0);
                }
                return ReleaseAction::Nothing;
            }
            if e.retain_count <= 1 {
                let locs = weak_slots_into_vec(e.weak_locations);
                let entry = SideTableEntry { retain_count: e.retain_count, deallocating: true, weak_locations: weak_slots_new() };
                side_map_insert(&mut st.table, k, entry);
                proof {
                    assert(entry.view() =~= (e.retain_count, true, Seq::<usize>::empty()));
                    assert(st.view() =~= v0.insert(k, entry.view()));
                }
                ReleaseAction::Deallocate(locs)
            } else {
                e.retain_count = e.retain_count - 1;
                side_map_insert(&mut st.table, k, e);
                proof {
                    assert(st.view() =~= v0.insert(k, e.view()));
                }
                ReleaseAction::Nothing
            }
        },
    }
}

/// Remove the entry of an object whose deallocation has completed.
pub fn objc_release_finished(st: &mut SideTable, obj: ObjcPtr)
    ensures
        final(st).view() == old(st).view().remove(obj.0),
{
    let _ = side_map_remove(&mut st.table, obj.0);
}

/// The retain count of `obj`: 0 for `nil`, 1 for an object absent from the
/// table.
pub fn objc_retain_count(st: &SideTable, obj: Id) -> (r: usize)
    ensures
        r == (match obj {
            None => 0,
            Some(p) => st.entry_of(p.0).0,
        }),
{
    match obj {
        None => 0,
        Some(p) => match side_map_count(&st.table, p.0) {
            Some(c) => c,
            None => 1,
        },
    }
}

/// The table after unregistering weak location `loc` from the object that
/// slot value `current` refers to (if it has an entry).
pub open spec fn unregistered(m: Map<usize, (usize, bool, Seq<usize>)>, current: Id, loc: usize) -> Map<usize, (usize, bool, Seq<usize>)> {
    match current {
        Some(o) => if m.dom().contains(o.0) {
            m.insert(o.0, (m[o.0].0, m[o.0].1, without(m[o.0].2, loc)))
        } else {
            m
        },
        None => m,
    }
}

/// Unregister weak location `loc` from the object `current` refers to.
fn unregister_weak(st: &mut SideTable, loc: usize, current: Id)
    ensures
        final(st).view() == unregistered(old(st).view(), current, loc),
{
    if let Some(o) = current {
        let ghost v0 = st.view();
        match side_map_remove(&mut st.table, o.0) {
            Some(mut e) => {
                weak_slots_remove(&mut e.weak_locations, loc);
                side_map_insert(&mut st.table, o.0, e);
                proof {
                    assert(st.view() =~= unregistered(v0, current, loc));
                }
            },
            None => {
                proof {
                    assert(st.view() =~= v0);
                }
            },
        }
    }
}

/// Point the weak reference at location `loc`, which currently holds
/// `current`, to `new_obj`, and return the value to store in the slot.
///
/// The location is unregistered from the object it referred to and
/// registered with `new_obj`, unless `new_obj` is deallocating, in which
/// case the slot is to hold `nil`.
pub fn objc_store_weak(st: &mut SideTable, loc: usize, current: Id, new_obj: Id) -> (r: Id)
    ensures
        ({
            let v1 = unregistered(old(st).view(), current, loc);
            match new_obj {
                None => r is None && final(st).view() == v1,
                Some(n) => {
                    let (c, d, w) = entry_in(v1, n.0);
                    if d {
                        r is None && final(st).view() == v1
                    } else {
                        r == new_obj && final(st).view() == v1.insert(n.0, (c, d, w.push(loc)))
                    }
                },
            }
        }),
{
    unregister_weak(st, loc, current);
    match new_obj {
        None => None,
        Some(n) => {
            let ghost v1 = st.view();
            let mut e = take_entry(st, n.0);
            if e.deallocating {
                side_map_insert(&mut st.table, n.0, e);
                proof {
                    assert(st.view() =~= v1);
                }
                return None;
            }
            weak_slots_push(&mut e.weak_locations, loc);
            side_map_insert(&mut st.table, n.0, e);
            proof {
                assert(st.view() =~= v1.insert(n.0, e.view()));
            }
            Some(n)
        },
    }
}

/// Initialise the weak reference at location `loc` to `obj`, and return
/// the value to store in the slot (the slot is cleared first, so nothing
/// is unregistered).
pub fn objc_init_weak(st: &mut SideTable, loc: usize, obj: Id) -> (r: Id)
    ensures
        match obj {
            None => r is None && final(st).view() == old(st).view(),
            Some(n) => {
                let (c, d, w) = old(st).entry_of(n.0);
                if d {
                    r is None && final(st).view() == old(st).view()
                } else {
                    r == obj && final(st).view() == old(st).view().insert(n.0, (c, d, w.push(loc)))
                }
            },
        },
{
    match obj {
        None => None,
        Some(_) => objc_store_weak(st, loc, None, obj),
    }
}

/// Promote the weak reference whose slot holds `current` to a strong
/// reference: `current` retained, or `None` if it is `nil` or deallocating.
pub fn objc_load_weak_retained(st: &mut SideTable, current: Id) -> (r: Id)
    requires
        current matches Some(p) ==> old(st).entry_of(p.0).0 < usize::MAX,
    ensures
        match current {
            None => r is None && final(st).view() == old(st).view(),
            Some(p) => {
                let (c, d, w) = old(st).entry_of(p.0);
                if d {
                    r is None && final(st).view() == old(st).view()
                } else {
                    r == current && final(st).view() == old(st).view().insert(p.0, ((c + 1) as usize, false, w))
                }
            },
        },
{
    if current.is_none() {
        return None;
    }
    objc_retain(st, current)
}

/// Load the weak reference whose slot holds `current`: retain it as
/// `objc_load_weak_retained` does and autorelease the result.
pub fn objc_load_weak(st: &mut SideTable, pools: &mut AutoreleasePools, current: Id) -> (r: Id)
    requires
        current matches Some(p) ==> old(st).entry_of(p.0).0 < usize::MAX,
    ensures
        match current {
            None => r is None && final(st).view() == old(st).view() && *final(pools) == *old(pools),
            Some(p) => {
                let (c, d, w) = old(st).entry_of(p.0);
                if d {
                    r is None && final(st).view() == old(st).view() && *final(pools) == *old(pools)
                } else {
                    &&& r == current
                    &&& final(st).view() == old(st).view().insert(p.0, ((c + 1) as usize, false, w))
                    &&& final(pools).view() == crate::autorelease::autoreleased(old(pools).view(), p)
                }
            },
        },
{
    let obj = objc_load_weak_retained(st, current);
    if obj.is_some() {
        objc_autorelease(pools, obj);
    }
    obj
}

/// Unregister the weak reference at location `loc`, whose slot holds
/// `current` (the slot is then to be cleared).
pub fn objc_destroy_weak(st: &mut SideTable, loc: usize, current: Id)
    ensures
        final(st).view() == unregistered(old(st).view(), current, loc),
{
    unregister_weak(st, loc, current);
}

/// Retaining and then releasing a live object leaves its bookkeeping as it
/// was, and the release requires nothing more.
pub proof fn lemma_retain_release(
    v0: Map<usize, (usize, bool, Seq<usize>)>,
    p: ObjcPtr,
    v1: Map<usize, (usize, bool, Seq<usize>)>,
    r1: Id,
    v2: Map<usize, (usize, bool, Seq<usize>)>,
    r2: ReleaseAction,
)
    requires
        !entry_in(v0, p.0).1,
        1 <= entry_in(v0, p.0).0 < usize::MAX,
        retains(v0, Some(p), v1, r1),
        releases(v1, Some(p), v2, r2),
    ensures
        r1 == Some(p),
        r2 is Nothing,
        entry_in(v2, p.0) == entry_in(v0, p.0),
{
}

/// Once releasing drops an object's count to zero, it cannot be retained
/// again: retaining it returns `None`.
pub proof fn lemma_no_revival(
    v0: Map<usize, (usize, bool, Seq<usize>)>,
    p: ObjcPtr,
    v1: Map<usize, (usize, bool, Seq<usize>)>,
    r1: ReleaseAction,
    v2: Map<usize, (usize, bool, Seq<usize>)>,
    r2: Id,
)
    requires
        v0.dom().contains(p.0),
        v0[p.0].0 <= 1,
        !v0[p.0].1,
        releases(v0, Some(p), v1, r1),
        retains(v1, Some(p), v2, r2),
    ensures
        r1 is Deallocate,
        r2 is None,
        v2 == v1,
{
}

/// A weak reference registered with a live object is among the locations
/// handed back when the object is released for deallocation.
pub proof fn lemma_weak_zeroed_on_dealloc(
    v0: Map<usize, (usize, bool, Seq<usize>)>,
    loc: usize,
    p: ObjcPtr,
    v1: Map<usize, (usize, bool, Seq<usize>)>,
    r1: Id,
    v2: Map<usize, (usize, bool, Seq<usize>)>,
    r2: ReleaseAction,
)
    requires
        !entry_in(v0, p.0).1,
        entry_in(v0, p.0).0 <= 1,
        v1 == v0.insert(p.0, (entry_in(v0, p.0).0, false, entry_in(v0, p.0).2.push(loc))),
        r1 == Some(p),
        releases(v1, Some(p), v2, r2),
    ensures
        r2 matches ReleaseAction::Deallocate(locs) && locs@.contains(loc),
{
    let w = entry_in(v0, p.0).2.push(loc);
    assert(w[w.len() - 1] == loc);
}

/// After a deallocation completes, the object's address counts as a fresh
/// object: retain count 1, not deallocating, no weak references.
pub proof fn lemma_finished_is_fresh(v0: Map<usize, (usize, bool, Seq<usize>)>, p: ObjcPtr)
    ensures
        entry_in(v0.remove(p.0), p.0) == (1usize, false, Seq::<usize>::empty()),
{
}

/// Removing `loc` from a list of weak locations keeps exactly the others.
proof fn lemma_without_contains(w: Seq<usize>, loc: usize, l: usize)
    ensures
        without(w, loc).contains(l) <==> (w.contains(l) && l != loc),
{
    broadcast use vstd::seq_lib::group_filter_ensures;
    broadcast use Seq::lemma_filter_contains_rev;

    if without(w, loc).contains(l) {
        let i = choose|i: int| 0 <= i < without(w, loc).len() && without(w, loc)[i] == l;
        assert(without(w, loc)[i] != loc);
    }
    if w.contains(l) && l != loc {
        let i = choose|i: int| 0 <= i < w.len() && w[i] == l;
        assert(without(w, loc).contains(w[i]));
    }
}

/// Unregistering weak location `loc` from the object a slot holds removes
/// that location and no other: every other location registered with any
/// object stays registered, `loc` is no longer registered with that
/// object, and counts and flags are kept.
pub proof fn lemma_unregister_keeps_others(
    v0: Map<usize, (usize, bool, Seq<usize>)>,
    current: Id,
    loc: usize,
    v1: Map<usize, (usize, bool, Seq<usize>)>,
)
    requires
        v1 == unregistered(v0, current, loc),
    ensures
        v1.dom() == v0.dom(),
        forall|k: usize| #[trigger] entry_in(v1, k).0 == entry_in(v0, k).0 && entry_in(v1, k).1 == entry_in(v0, k).1,
        forall|k: usize, l: usize|
            l != loc ==> (#[trigger] entry_in(v1, k).2.contains(l) <==> entry_in(v0, k).2.contains(l)),
        current matches Some(o) ==> !entry_in(v1, o.0).2.contains(loc),
{
    assert(v1.dom() =~= v0.dom());
    assert forall|k: usize, l: usize| l != loc implies (#[trigger] entry_in(v1, k).2.contains(l) <==> entry_in(v0, k).2.contains(l)) by {
        if let Some(o) = current {
            if o.0 == k && v0.dom().contains(k) {
                lemma_without_contains(v0[k].2, loc, l);
            }
        }
    }
    if let Some(o) = current {
        if v0.dom().contains(o.0) {
            lemma_without_contains(v0[o.0].2, loc, loc);
        }
    }
}

/// Destroying one weak reference to an object leaves the others to be
/// zeroed: when the object is then released to zero, every other location
/// registered with it is handed back.
pub proof fn lemma_destroy_keeps_other_weak(
    v0: Map<usize, (usize, bool, Seq<usize>)>,
    p: ObjcPtr,
    loc: usize,
    l: usize,
    v1: Map<usize, (usize, bool, Seq<usize>)>,
    v2: Map<usize, (usize, bool, Seq<usize>)>,
    r: ReleaseAction,
)
    requires
        v1 == unregistered(v0, Some(p), loc),
        entry_in(v0, p.0).2.contains(l),
        l != loc,
        !entry_in(v0, p.0).1,
        entry_in(v0, p.0).0 <= 1,
        releases(v1, Some(p), v2, r),
    ensures
        r matches ReleaseAction::Deallocate(locs) && locs@.contains(l),
{
    lemma_unregister_keeps_others(v0, Some(p), loc, v1);
    assert(entry_in(v1, p.0).2.contains(l));
    assert(entry_in(v1, p.0).0 == entry_in(v0, p.0).0 && entry_in(v1, p.0).1 == entry_in(v0, p.0).1);
}

} // verus!
