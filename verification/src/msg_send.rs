//! Message lookup: the slow path that walks the superclass chain, and the
//! cached fast path in front of it.
use vstd::prelude::*;

use crate::class_registry::{
    caches_after_change, chain_find, entries_find, in_registered_tree_witness, is_registered, lemma_chain_find_by_name,
    lemma_chain_find_in_range, lemma_chain_find_same_sels, lists_after_add, lists_same_sels, list_slot, method_at, own_method, designates,
    MethodRef, Runtime,
};
use crate::method_cache::{
    cache_find, cache_inserted, cache_lookup, in_registered_tree, lemma_cache_find_by_name, lemma_cache_find_first,
    lemma_lookup_after_insert, opt_rank, subtree_has, tree_links,
};
use crate::types::{ClassRef, MethodEntry, ObjcObject, IMP, SEL};

verus! {

/// The implementation that a lookup of `sel` finds starting at class `c`:
/// the first method of that selector name in `c`'s own method lists, else
/// the result for its superclass.
pub open spec fn class_find(rt: Runtime, c: int, sel: SEL) -> Option<IMP>
    decreases c,
{
    if c < 0 || c >= rt.classes.classes@.len() {
        None
    } else {
        let k = rt.classes.classes@[c];
        match chain_find(rt.sels, k.method_list@, sel, 0) {
            Some((i, j)) => Some(k.method_list@[i].entries@[j].imp),
            None => match k.super_class {
                Some(s) => if s.0 < c {
                    class_find(rt, s.0 as int, sel)
                } else {
                    None
                },
                None => None,
            },
        }
    }
}

/// What the cache of class `c` returns for `sel` (`None` without a cache).
pub open spec fn cached_imp(rt: Runtime, c: int, sel: SEL) -> Option<IMP> {
    match rt.classes.classes@[c].dtable {
        Some(m) => m.spec_lookup(rt.sels, sel),
        None => None,
    }
}

/// `new` and `r` are what a message lookup of `sel` on `receiver` in `old`
/// gives: `None` for a `nil` receiver; the cached implementation on a
/// cache hit; otherwise the implementation the superclass walk finds,
/// which is then entered in the receiver's class's cache.
pub open spec fn looks_up(old: Runtime, receiver: Option<ObjcObject>, sel: SEL, new: Runtime, r: Option<IMP>) -> bool {
    &&& new.wf()
    &&& new.sels == old.sels
    &&& match receiver {
        None => r is None && new == old,
        Some(o) => {
            let c = o.isa.0 as int;
            if cached_imp(old, c, sel) is Some {
                r == cached_imp(old, c, sel) && new == old
            } else {
                &&& r == class_find(old, c, sel)
                &&& new.loaded == old.loaded
                &&& new.classes.classes@.len() == old.classes.classes@.len()
                &&& new.classes.registry == old.classes.registry
                &&& forall|d: int| 0 <= d < old.classes.classes@.len() && d != c ==> #[trigger] new.classes.classes@[d] == old.classes.classes@[d]
                &&& old.classes.classes@[c].same_but_cache(&new.classes.classes@[c])
                &&& match (r, old.classes.classes@[c].dtable) {
                    (Some(imp), Some(m)) => new.classes.classes@[c].dtable matches Some(nm) && nm.entries@
                        == cache_inserted(old.sels, m.entries@, sel, imp),
                    _ => new == old,
                }
            }
        },
    }
}

/// Slow-path lookup: walk the class hierarchy from `cls` upward and return
/// the first implementation of `sel`'s name found.
pub fn class_lookup_method(rt: &Runtime, cls: ClassRef, sel: SEL) -> (r: Option<IMP>)
    requires
        rt.wf(),
        rt.classes.valid(cls),
        sel < rt.sels.num_sels(),
    ensures
        r == class_find(*rt, cls.0 as int, sel),
{
    let mut cur = Some(cls);
    loop
        invariant
            rt.wf(),
            sel < rt.sels.num_sels(),
            cur matches Some(x) ==> x.0 < rt.classes.classes@.len(),
            class_find(*rt, cls.0 as int, sel) == match cur {
                Some(x) => class_find(*rt, x.0 as int, sel),
                None => None,
            },
        decreases opt_rank(cur),
    {
        match cur {
            None => {
                return None;
            },
            Some(x) => {
                proof {
                    crate::class_registry::lemma_class_lists_bounded(rt.classes, rt.sels.num_sels(), x.0 as int);
                    lemma_chain_find_in_range(rt.sels, rt.classes.classes@[x.0 as int].method_list@, sel, 0);
                    assert(rt.classes.links_ok(x.0 as int));
                }
                match crate::class_registry::find_method_in_chain(&rt.sels, &rt.classes.classes[x.0].method_list, sel) {
                    Some((i, j)) => {
                        return Some(rt.classes.classes[x.0].method_list[i].entries[j].imp);
                    },
                    None => {
                        cur = rt.classes.classes[x.0].super_class;
                    },
                }
            },
        }
    }
}

/// Message lookup: return the implementation to call for `sel` on
/// `receiver`.
///
/// The receiver's class's cache is consulted first; on a miss the class
/// hierarchy is walked and a found implementation is entered in the cache.
/// `None` for a `nil` receiver or when no class in the hierarchy implements
/// the selector.
pub fn objc_msg_lookup(rt: &mut Runtime, receiver: Option<ObjcObject>, sel: SEL) -> (r: Option<IMP>)
    requires
        old(rt).wf(),
        sel < old(rt).sels.num_sels(),
        receiver matches Some(o) ==> old(rt).classes.valid(o.isa),
    ensures
        looks_up(*old(rt), receiver, sel, *final(rt), r),
{
    let o = match receiver {
        None => {
            return None;
        },
        Some(o) => o,
    };
    let c = o.isa.0;
    let ghost rt0 = *rt;
    match &rt.classes.classes[c].dtable {
        Some(cache) => {
            proof {
                assert(rt.classes.classes@[c as int].dtable matches Some(m) ==> m.wf(rt.sels.num_sels()));
            }
            match cache.lookup(&rt.sels, sel) {
                Some(imp) => {
                    return Some(imp);
                },
                None => {},
            }
        },
        None => {},
    }
    let imp = match class_lookup_method(rt, o.isa, sel) {
        Some(imp) => imp,
        None => {
            return None;
        },
    };
    if rt.classes.classes[c].dtable.is_none() {
        return Some(imp);
    }
    let sels = &rt.sels;
    let classes = &mut rt.classes;
    match &mut classes.classes[c].dtable {
        Some(cache) => {
            proof {
                assert(rt0.classes.classes@[c as int].dtable matches Some(m) ==> m.wf(rt0.sels.num_sels()));
            }
            cache.insert(sels, sel, imp);
        },
        None => {},
    }
    proof {
        let t = rt.classes;
        let t0 = rt0.classes;
        assert(t0.classes@[c as int].same_but_cache(&t.classes@[c as int]));
        assert forall|k: int| 0 <= k < t.classes@.len() implies #[trigger] t.links_ok(k) by {
            assert(t0.links_ok(k));
            if let Some(y) = t.classes@[k].subclass_list {
                assert(t.classes@[y.0 as int].super_class == t0.classes@[y.0 as int].super_class);
            }
            if let Some(y) = t.classes@[k].sibling_class {
                assert(t.classes@[y.0 as int].super_class == t0.classes@[y.0 as int].super_class);
            }
        }
        assert forall|k: int, i: int, j: int|
            0 <= k < t.classes@.len() && 0 <= i < t.classes@[k].method_list@.len() && 0 <= j
                < t.classes@[k].method_list@[i].entries@.len()
            implies #[trigger] t.classes@[k].method_list@[i].entries@[j].sel < rt.sels.num_sels() by {
            assert(t.classes@[k].method_list == t0.classes@[k].method_list);
        }
        assert forall|k: int| 0 <= k < t.classes@.len() implies (#[trigger] t.classes@[k].dtable matches Some(m) ==> m.wf(
            rt.sels.num_sels(),
        )) by {
            if k != c {
                assert(t.classes@[k] == t0.classes@[k]);
            }
        }
    }
    Some(imp)
}

/// Message lookup for a receiver known to be non-`nil` and a selector
/// known to be implemented: the implementation to call.
pub fn objc_msg_lookup_nonnull(rt: &mut Runtime, receiver: ObjcObject, sel: SEL) -> (r: IMP)
    requires
        old(rt).wf(),
        sel < old(rt).sels.num_sels(),
        old(rt).classes.valid(receiver.isa),
        cached_imp(*old(rt), receiver.isa.0 as int, sel) is Some || class_find(*old(rt), receiver.isa.0 as int, sel)
            is Some,
    ensures
        looks_up(*old(rt), Some(receiver), sel, *final(rt), Some(r)),
{
    match objc_msg_lookup(rt, Some(receiver), sel) {
        Some(imp) => imp,
        None => {
            proof {
                assert(false);
            }
            0
        },
    }
}

/// Every entry of the cache of class `c` holds what the superclass walk
/// finds for its selector.
pub open spec fn cache_coherent(rt: Runtime, c: int) -> bool {
    rt.classes.classes@[c].dtable matches Some(m) ==> forall|k: int|
        0 <= k < m.entries@.len() ==> class_find(rt, c, #[trigger] m.entries@[k].0) == Some(m.entries@[k].1)
}

/// The superclass walk depends only on the name of the selector.
pub proof fn lemma_class_find_by_name(rt: Runtime, c: int, a: SEL, b: SEL)
    requires
        rt.sels.key(a) == rt.sels.key(b),
    ensures
        class_find(rt, c, a) == class_find(rt, c, b),
    decreases c,
{
    if 0 <= c < rt.classes.classes@.len() {
        lemma_chain_find_by_name(rt.sels, rt.classes.classes@[c].method_list@, a, b, 0);
        if let Some(s) = rt.classes.classes@[c].super_class {
            if s.0 < c {
                lemma_class_find_by_name(rt, s.0 as int, a, b);
            }
        }
    }
}

/// The superclass walk does not read caches.
pub proof fn lemma_class_find_ignores_caches(r0: Runtime, r1: Runtime, c: int, sel: SEL)
    requires
        r1.sels == r0.sels,
        r0.classes.same_but_caches(&r1.classes),
    ensures
        class_find(r0, c, sel) == class_find(r1, c, sel),
    decreases c,
{
    if 0 <= c < r0.classes.classes@.len() {
        assert(r0.classes.classes@[c].same_but_cache(&r1.classes.classes@[c]));
        if let Some(s) = r0.classes.classes@[c].super_class {
            if s.0 < c {
                lemma_class_find_ignores_caches(r0, r1, s.0 as int, sel);
            }
        }
    }
}

/// Looking up the same selector on the same receiver twice in a row gives
/// the same implementation: the second lookup hits the cache entry the first
/// one made.
pub proof fn lemma_lookup_repeat(
    rt0: Runtime,
    receiver: Option<ObjcObject>,
    sel: SEL,
    rt1: Runtime,
    r1: Option<IMP>,
    rt2: Runtime,
    r2: Option<IMP>,
)
    requires
        rt0.wf(),
        looks_up(rt0, receiver, sel, rt1, r1),
        looks_up(rt1, receiver, sel, rt2, r2),
    ensures
        r2 == r1,
{
    if let Some(o) = receiver {
        let c = o.isa.0 as int;
        if cached_imp(rt0, c, sel) is None {
            if let (Some(imp), Some(m)) = (r1, rt0.classes.classes@[c].dtable) {
                lemma_lookup_after_insert(rt0.sels, m.entries@, sel, imp, sel);
                assert(cached_imp(rt1, c, sel) == Some(imp));
            }
        }
    }
}

/// With a coherent cache, message lookup returns what the superclass walk
/// finds, and the cache stays coherent.
pub proof fn lemma_lookup_coherent(rt0: Runtime, o: ObjcObject, sel: SEL, rt1: Runtime, r: Option<IMP>)
    requires
        rt0.wf(),
        rt0.classes.valid(o.isa),
        sel < rt0.sels.num_sels(),
        cache_coherent(rt0, o.isa.0 as int),
        looks_up(rt0, Some(o), sel, rt1, r),
    ensures
        r == class_find(rt0, o.isa.0 as int, sel),
        cache_coherent(rt1, o.isa.0 as int),
{
    let c = o.isa.0 as int;
    if let Some(m) = rt0.classes.classes@[c].dtable {
        let es = m.entries@;
        lemma_cache_find_first(rt0.sels, es, sel, 0);
        if let Some(k) = cache_find(rt0.sels, es, sel, 0) {
            assert(class_find(rt0, c, es[k].0) == Some(es[k].1));
            lemma_class_find_by_name(rt0, c, es[k].0, sel);
        } else {
            assert(rt0.classes.same_but_caches(&rt1.classes)) by {
                assert forall|d: int| 0 <= d < rt0.classes.classes@.len() implies #[trigger] rt0.classes.classes@[d].same_but_cache(
                    &rt1.classes.classes@[d],
                ) by {
                    if d != c {
                        assert(rt1.classes.classes@[d] == rt0.classes.classes@[d]);
                    }
                }
            }
            if let Some(imp) = r {
                let nm = rt1.classes.classes@[c].dtable->0;
                let nes = nm.entries@;
                assert forall|k: int| 0 <= k < nes.len() implies class_find(rt1, c, #[trigger] nes[k].0) == Some(nes[k].1) by {
                    lemma_class_find_ignores_caches(rt0, rt1, c, nes[k].0);
                    if es.len() >= crate::method_cache::CACHE_CAPACITY {
                        assert(nes[k] == (sel, imp));
                    } else if k < es.len() {
                        assert(nes[k] == es[k]);
                    } else {
                        assert(nes[k] == (sel, imp));
                    }
                }
            }
        }
    }
}

/// After a method is added to a registered class, a message lookup of its
/// selector name on an instance of that class finds the new implementation.
pub proof fn lemma_added_method_found(
    rt0: Runtime,
    cls: ClassRef,
    sel: SEL,
    imp: IMP,
    types: usize,
    rt1: Runtime,
    o: ObjcObject,
    sel2: SEL,
    rt2: Runtime,
    r: Option<IMP>,
)
    requires
        rt0.wf(),
        rt0.classes.valid(cls),
        is_registered(rt0.classes.classes@[cls.0 as int].info),
        lists_after_add(
            rt0.classes.classes@[cls.0 as int].method_list@,
            true,
            MethodEntry { imp, sel, types },
            rt1.classes.classes@[cls.0 as int].method_list@,
        ),
        caches_after_change(rt0.classes, rt1.classes, cls, true),
        rt1.sels == rt0.sels,
        o.isa == cls,
        rt0.sels.key(sel2) == rt0.sels.key(sel),
        looks_up(rt1, Some(o), sel2, rt2, r),
    ensures
        r == Some(imp),
{
    let c = cls.0 as int;
    assert(subtree_has(tree_links(rt0.classes), c, c));
    assert(rt1.classes.classes@[c].cache_empty());
    let fl = rt1.classes.classes@[c].method_list@;
    assert(fl[0].entries@[0] == MethodEntry { imp, sel, types });
    assert(entries_find(rt1.sels, fl[0].entries@, sel2, 0) == Some(0int));
    assert(chain_find(rt1.sels, fl, sel2, 0) == Some((0int, 0int)));
}

/// After exchanging the implementations of a registered class's own method
/// `m1` (the one a lookup of `sel` on the class finds) and of method `m2`,
/// a message lookup of `sel` on an instance of that class finds what was
/// `m2`'s implementation.
pub proof fn lemma_exchange_swaps_dispatch(
    rt0: Runtime,
    c: ClassRef,
    sel: SEL,
    m1: MethodRef,
    m2: MethodRef,
    rt1: Runtime,
    o: ObjcObject,
    rt2: Runtime,
    r: Option<IMP>,
)
    requires
        rt0.wf(),
        rt0.classes.valid(c),
        exists|i: int| 0 <= i < rt0.classes.registry@.len() && #[trigger] rt0.classes.registry@[i].cls == c,
        own_method(rt0, c, sel) matches Some(p) && designates(rt0.classes, m1, c, p),
        rt1.sels == rt0.sels,
        rt1.classes.classes@.len() == rt0.classes.classes@.len(),
        method_at(rt1.classes, m1) == (MethodEntry { imp: method_at(rt0.classes, m2).imp, ..method_at(rt0.classes, m1) }),
        forall|d: int|
            0 <= d < rt0.classes.classes@.len() ==> {
                let od = rt0.classes.classes@[d];
                let fd = #[trigger] rt1.classes.classes@[d];
                &&& fd.super_class == od.super_class
                &&& lists_same_sels(od.method_list@, fd.method_list@)
                &&& if in_registered_tree(rt0.classes, d) {
                    fd.cache_empty()
                } else {
                    fd.dtable == od.dtable
                }
            },
        o.isa == c,
        looks_up(rt1, Some(o), sel, rt2, r),
    ensures
        r == Some(method_at(rt0.classes, m2).imp),
{
    let ci = c.0 as int;
    in_registered_tree_witness(rt0.classes, c);
    assert(rt1.classes.classes@[ci].cache_empty());
    let ol = rt0.classes.classes@[ci].method_list@;
    let fl = rt1.classes.classes@[ci].method_list@;
    lemma_chain_find_same_sels(rt0.sels, ol, fl, sel, 0);
    assert(chain_find(rt1.sels, fl, sel, 0) == Some((list_slot(rt0.classes, m1), m1.index as int)));
}

/// A class's own method takes precedence over its superclasses': the walk
/// returns the implementation of the first own method of that name.
pub proof fn lemma_own_method_wins(rt: Runtime, c: ClassRef, sel: SEL)
    requires
        rt.classes.valid(c),
        own_method(rt, c, sel) is Some,
    ensures
        ({
            let (i, j) = own_method(rt, c, sel)->0;
            class_find(rt, c.0 as int, sel) == Some(rt.classes.classes@[c.0 as int].method_list@[i].entries@[j].imp)
        }),
{
}

/// A class without an own method of that name inherits its superclass's.
pub proof fn lemma_inherited(rt: Runtime, c: ClassRef, sel: SEL)
    requires
        rt.wf(),
        rt.classes.valid(c),
        own_method(rt, c, sel) is None,
    ensures
        class_find(rt, c.0 as int, sel) == match rt.classes.classes@[c.0 as int].super_class {
            Some(s) => class_find(rt, s.0 as int, sel),
            None => None,
        },
{
    assert(rt.classes.links_ok(c.0 as int));
}

} // verus!
