//! Cache coherence: every entry of every method cache holds what the
//! superclass walk finds for its selector, so a cached lookup and an
//! uncached one return the same implementation.
//!
//! Message lookup keeps caches coherent.  Allocating and registering
//! classes do too.  Adding, replacing and exchanging methods keep them
//! coherent when the caches they leave in place belong to classes whose
//! lookups the change cannot affect: for a registered class, that is when
//! every class inheriting from it is threaded into its subclass tree (the
//! tree whose caches are cleared); before registration, when the classes
//! inheriting from it have empty caches.
use vstd::prelude::*;

use crate::class_registry::{caches_after_change, method_valid, ClassTable, MethodRef, Runtime};
use crate::class_registry::sibling_chain;
use crate::loader::threaded;
use crate::method_cache::{chain_has, in_registered_tree, opt_rank, subtree_has, tree_links};
use crate::msg_send::{cache_coherent, class_find, lemma_lookup_coherent, looks_up};
use crate::types::{Class, ClassRef, ObjcObject, IMP, SEL};

verus! {

/// Class `a` is class `d` or one of its superclasses.
pub open spec fn in_chain(t: ClassTable, d: int, a: int) -> bool
    decreases d,
{
    if d < 0 || d >= t.classes@.len() {
        false
    } else if d == a {
        true
    } else {
        match t.classes@[d].super_class {
            Some(s) => if s.0 < d {
                in_chain(t, s.0 as int, a)
            } else {
                false
            },
            None => false,
        }
    }
}

/// A class's superclasses come before it.
proof fn lemma_in_chain_below(t: ClassTable, d: int, a: int)
    requires
        in_chain(t, d, a),
    ensures
        a <= d,
    decreases d,
{
    if d != a {
        if let Some(s) = t.classes@[d].super_class {
            lemma_in_chain_below(t, s.0 as int, a);
        }
    }
}

/// Every class's cache agrees with the superclass walk.
pub open spec fn coherent(rt: Runtime) -> bool {
    forall|c: int| 0 <= c < rt.classes.classes@.len() ==> #[trigger] cache_coherent(rt, c)
}

/// Every class that inherits from `a` lies in `a`'s subclass tree.
pub open spec fn descendants_threaded(t: ClassTable, a: int) -> bool {
    forall|d: int| 0 <= d < t.classes@.len() && #[trigger] in_chain(t, d, a) ==> subtree_has(tree_links(t), a, d)
}

/// The classes that inherit from `a` have empty caches.
pub open spec fn descendants_uncached(t: ClassTable, a: int) -> bool {
    forall|d: int| 0 <= d < t.classes@.len() && #[trigger] in_chain(t, d, a) ==> t.classes@[d].cache_empty()
}

/// `r1` keeps the superclasses and selectors of `r0`, and the method lists
/// of every class of `r0` but `a` and `b`; it may have more classes.
pub open spec fn lists_kept_but(r0: Runtime, r1: Runtime, a: int, b: int) -> bool {
    &&& r1.sels == r0.sels
    &&& r0.classes.classes@.len() <= r1.classes.classes@.len()
    &&& forall|k: int|
        0 <= k < r0.classes.classes@.len() ==> (#[trigger] r1.classes.classes@[k]).super_class
            == r0.classes.classes@[k].super_class
    &&& forall|k: int|
        0 <= k < r0.classes.classes@.len() && k != a && k != b ==> (#[trigger] r1.classes.classes@[k]).method_list
            == r0.classes.classes@[k].method_list
}

/// The superclass walk from a class that inherits from neither `a` nor `b`
/// does not see a change to their method lists.
proof fn lemma_class_find_outside(r0: Runtime, r1: Runtime, a: int, b: int, d: int, sel: SEL)
    requires
        lists_kept_but(r0, r1, a, b),
        0 <= d < r0.classes.classes@.len(),
        !in_chain(r0.classes, d, a),
        !in_chain(r0.classes, d, b),
    ensures
        class_find(r1, d, sel) == class_find(r0, d, sel),
    decreases d,
{
    assert(r1.classes.classes@[d].super_class == r0.classes.classes@[d].super_class);
    assert(r1.classes.classes@[d].method_list == r0.classes.classes@[d].method_list);
    if let Some(s) = r0.classes.classes@[d].super_class {
        if s.0 < d {
            lemma_class_find_outside(r0, r1, a, b, s.0 as int, sel);
        }
    }
}

/// After a change to the method lists of `a` and `b` (and to caches), the
/// caches are coherent if they were, every class inheriting from `a` or
/// `b` has an empty cache, and every other cache is unchanged or empty.
proof fn lemma_coherent_after_change(r0: Runtime, r1: Runtime, a: int, b: int)
    requires
        coherent(r0),
        lists_kept_but(r0, r1, a, b),
        forall|d: int|
            0 <= d < r0.classes.classes@.len() && (in_chain(r0.classes, d, a) || in_chain(r0.classes, d, b))
                ==> (#[trigger] r1.classes.classes@[d]).cache_empty(),
        forall|d: int|
            0 <= d < r0.classes.classes@.len() ==> (#[trigger] r1.classes.classes@[d]).cache_empty()
                || r1.classes.classes@[d].dtable == r0.classes.classes@[d].dtable,
        forall|d: int| r0.classes.classes@.len() <= d < r1.classes.classes@.len() ==> (#[trigger] r1.classes.classes@[d]).cache_empty(),
    ensures
        coherent(r1),
{
    assert forall|c: int| 0 <= c < r1.classes.classes@.len() implies #[trigger] cache_coherent(r1, c) by {
        if c < r0.classes.classes@.len() && !r1.classes.classes@[c].cache_empty() {
            assert(!in_chain(r0.classes, c, a) && !in_chain(r0.classes, c, b));
            assert(cache_coherent(r0, c));
            if let Some(m) = r1.classes.classes@[c].dtable {
                assert forall|k: int| 0 <= k < m.entries@.len() implies class_find(r1, c, #[trigger] m.entries@[k].0)
                    == Some(m.entries@[k].1) by {
                    lemma_class_find_outside(r0, r1, a, b, c, m.entries@[k].0);
                }
            }
        }
    }
}

/// Message lookup keeps every cache coherent, and returns what the
/// superclass walk finds.
pub proof fn lemma_lookup_keeps_coherent(rt0: Runtime, o: ObjcObject, sel: SEL, rt1: Runtime, r: Option<IMP>)
    requires
        rt0.wf(),
        rt0.classes.valid(o.isa),
        sel < rt0.sels.num_sels(),
        coherent(rt0),
        looks_up(rt0, Some(o), sel, rt1, r),
    ensures
        r == class_find(rt0, o.isa.0 as int, sel),
        coherent(rt1),
{
    let c = o.isa.0 as int;
    assert(cache_coherent(rt0, c));
    lemma_lookup_coherent(rt0, o, sel, rt1, r);
    assert(rt0.classes.same_but_caches(&rt1.classes)) by {
        assert forall|d: int| 0 <= d < rt0.classes.classes@.len() implies #[trigger] rt0.classes.classes@[d].same_but_cache(
            &rt1.classes.classes@[d],
        ) by {
            if d != c {
                assert(rt1.classes.classes@[d] == rt0.classes.classes@[d]);
            }
        }
    }
    assert forall|c2: int| 0 <= c2 < rt1.classes.classes@.len() implies #[trigger] cache_coherent(rt1, c2) by {
        if c2 != c {
            assert(rt1.classes.classes@[c2] == rt0.classes.classes@[c2]);
            assert(cache_coherent(rt0, c2));
            if let Some(m) = rt1.classes.classes@[c2].dtable {
                assert forall|k: int| 0 <= k < m.entries@.len() implies class_find(rt1, c2, #[trigger] m.entries@[k].0)
                    == Some(m.entries@[k].1) by {
                    crate::msg_send::lemma_class_find_ignores_caches(rt0, rt1, c2, m.entries@[k].0);
                }
            }
        }
    }
}

/// The classes that inherit from `a` lie in registered subclass trees.
pub open spec fn descendants_registered(t: ClassTable, a: int) -> bool {
    forall|d: int| 0 <= d < t.classes@.len() && #[trigger] in_chain(t, d, a) ==> in_registered_tree(t, d)
}

/// Changing one class's method lists as adding or replacing a method does
/// (clearing the caches of the class's subclass tree when `flushed`, no
/// cache otherwise) keeps every cache coherent, provided every class that
/// inherits from it is in that tree (when flushed) or has an empty cache
/// (when not).
pub proof fn lemma_method_change_keeps_coherent(rt0: Runtime, cls: ClassRef, flushed: bool, rt1: Runtime)
    requires
        rt0.wf(),
        rt0.classes.valid(cls),
        coherent(rt0),
        if flushed {
            descendants_threaded(rt0.classes, cls.0 as int)
        } else {
            descendants_uncached(rt0.classes, cls.0 as int)
        },
        rt1.sels == rt0.sels,
        caches_after_change(rt0.classes, rt1.classes, cls, flushed),
    ensures
        coherent(rt1),
{
    let c = cls.0 as int;
    assert forall|d: int|
        0 <= d < rt0.classes.classes@.len() && (in_chain(rt0.classes, d, c) || in_chain(rt0.classes, d, c))
            implies (#[trigger] rt1.classes.classes@[d]).cache_empty() by {
        if flushed {
            assert(subtree_has(tree_links(rt0.classes), c, d));
        } else {
            assert(rt0.classes.classes@[d].cache_empty());
        }
    }
    lemma_coherent_after_change(rt0, rt1, c, c);
}

/// Exchanging two methods' implementations and clearing the caches of the
/// registered subclass trees, as `method_exchange_implementations` does,
/// keeps every cache coherent, provided every class that inherits from
/// either method's class lies in a registered tree.
pub proof fn lemma_exchange_keeps_coherent(rt0: Runtime, m1: MethodRef, m2: MethodRef, rt1: Runtime)
    requires
        rt0.wf(),
        coherent(rt0),
        method_valid(rt0.classes, m1),
        method_valid(rt0.classes, m2),
        descendants_registered(rt0.classes, m1.cls.0 as int),
        descendants_registered(rt0.classes, m2.cls.0 as int),
        rt1.sels == rt0.sels,
        rt1.classes.classes@.len() == rt0.classes.classes@.len(),
        forall|d: int|
            0 <= d < rt0.classes.classes@.len() ==> {
                let od = rt0.classes.classes@[d];
                let fd = #[trigger] rt1.classes.classes@[d];
                &&& fd.super_class == od.super_class
                &&& (d != m1.cls.0 && d != m2.cls.0 ==> fd.method_list == od.method_list)
                &&& if in_registered_tree(rt0.classes, d) {
                    fd.cache_empty()
                } else {
                    fd.dtable == od.dtable
                }
            },
    ensures
        coherent(rt1),
{
    let a = m1.cls.0 as int;
    let b = m2.cls.0 as int;
    assert forall|d: int|
        0 <= d < rt0.classes.classes@.len() && (in_chain(rt0.classes, d, a) || in_chain(rt0.classes, d, b))
            implies (#[trigger] rt1.classes.classes@[d]).cache_empty() by {
        assert(in_registered_tree(rt0.classes, d));
    }
    lemma_coherent_after_change(rt0, rt1, a, b);
}

/// Changes that keep every class's superclass, method lists and cache,
/// and add classes with empty caches (allocating a class pair,
/// registering a class, loading a module) keep every cache coherent.
pub proof fn lemma_growth_keeps_coherent(rt0: Runtime, rt1: Runtime)
    requires
        coherent(rt0),
        rt1.sels == rt0.sels,
        rt0.classes.classes@.len() <= rt1.classes.classes@.len(),
        forall|k: int|
            0 <= k < rt0.classes.classes@.len() ==> {
                let ok = rt0.classes.classes@[k];
                let fk = #[trigger] rt1.classes.classes@[k];
                &&& fk.super_class == ok.super_class
                &&& fk.method_list == ok.method_list
                &&& fk.dtable == ok.dtable
            },
        forall|d: int| rt0.classes.classes@.len() <= d < rt1.classes.classes@.len() ==> (#[trigger] rt1.classes.classes@[d]).cache_empty(),
    ensures
        coherent(rt1),
{
    let n = rt0.classes.classes@.len() as int;
    assert forall|d: int| 0 <= d < n implies !in_chain(rt0.classes, d, n) by {
        if in_chain(rt0.classes, d, n) {
            lemma_in_chain_below(rt0.classes, d, n);
        }
    }
    lemma_coherent_after_change(rt0, rt1, n, n);
}

/// A subtree of a subtree is part of the larger subtree.
proof fn lemma_subtree_trans(ls: Seq<(Class, Class)>, c: int, s: int, d: int)
    requires
        subtree_has(ls, c, s),
        subtree_has(ls, s, d),
    ensures
        subtree_has(ls, c, d),
    decreases ls.len() - c, ls.len() + 1,
{
    if c != s && d != c {
        lemma_chain_trans(ls, c, ls[c].0, s, d);
    }
}

proof fn lemma_chain_trans(ls: Seq<(Class, Class)>, p: int, x: Class, s: int, d: int)
    requires
        0 <= p < ls.len(),
        chain_has(ls, p, x, s),
        subtree_has(ls, s, d),
    ensures
        chain_has(ls, p, x, d),
    decreases ls.len() - p, opt_rank(x),
{
    let y = x->0;
    if subtree_has(ls, y.0 as int, s) {
        lemma_subtree_trans(ls, y.0 as int, s, d);
    } else {
        lemma_chain_trans(ls, p, ls[y.0 as int].1, s, d);
    }
}

/// The classes in the list of subclasses starting at `x`, all subclasses
/// of `s`, lie in the subclass tree below `s`.
proof fn lemma_listed_in_chain(t: ClassTable, s: int, x: Class, d: int)
    requires
        t.wf(),
        0 <= s < t.classes@.len(),
        x matches Some(y) ==> y.0 < t.classes@.len() && t.classes@[y.0 as int].super_class == Some(ClassRef(s as usize)),
        sibling_chain(t, x).contains(ClassRef(d as usize)),
        0 <= d < t.classes@.len(),
        t.classes@.len() <= usize::MAX,
    ensures
        chain_has(tree_links(t), s, x, d),
    decreases opt_rank(x),
{
    let ls = tree_links(t);
    let y = x->0;
    assert(t.links_ok(y.0 as int));
    let z = t.classes@[y.0 as int].sibling_class;
    assert(ls[y.0 as int] == (t.classes@[y.0 as int].subclass_list, z));
    assert(sibling_chain(t, x) == seq![y].add(sibling_chain(t, z)));
    if y.0 as int == d {
        assert(subtree_has(ls, d, d));
    } else {
        let k = choose|k: int| 0 <= k < sibling_chain(t, x).len() && sibling_chain(t, x)[k] == ClassRef(d as usize);
        assert(k != 0);
        assert(sibling_chain(t, z)[k - 1] == ClassRef(d as usize));
        if let Some(w) = z {
            assert(t.classes@[w.0 as int].super_class == t.classes@[y.0 as int].super_class);
        }
        lemma_listed_in_chain(t, s, z, d);
    }
}

/// In a consistent table, every class that inherits from `c` and whose
/// superclass chain up to `c` is threaded (each class in its superclass's
/// list of subclasses) lies in the subclass tree of `c`: the tree that
/// clearing caches walks holds every such descendant, each direct subclass
/// of a list included, not only the first.
pub proof fn lemma_tree_holds_descendants(t: ClassTable, c: int, d: int)
    requires
        t.wf(),
        0 <= c < t.classes@.len(),
        0 <= d < t.classes@.len(),
        t.classes@.len() <= usize::MAX,
        in_chain(t, d, c),
        forall|x: int| 0 <= x < t.classes@.len() && #[trigger] in_chain(t, x, c) ==> threaded(t, x),
    ensures
        subtree_has(tree_links(t), c, d),
    decreases d,
{
    let ls = tree_links(t);
    if d != c {
        let s = t.classes@[d].super_class->0;
        assert(t.links_ok(d));
        lemma_tree_holds_descendants(t, c, s.0 as int);
        assert(threaded(t, d));
        assert(t.links_ok(s.0 as int));
        let head = t.classes@[s.0 as int].subclass_list;
        assert(ls[s.0 as int].0 == head);
        if let Some(h) = head {
            assert(t.classes@[h.0 as int].super_class == Some(s));
        }
        lemma_listed_in_chain(t, s.0 as int, head, d);
        assert(subtree_has(ls, s.0 as int, d));
        lemma_subtree_trans(ls, c, s.0 as int, d);
    }
}

/// After a method of a class is added or replaced with its subclass tree
/// cleared (as `class_add_method` on a registered class and
/// `class_replace_method` do), every class that inherits from it through
/// threaded classes has an empty cache, so its next lookup walks the
/// superclass chain and sees the change.
pub proof fn lemma_change_clears_descendants(rt0: Runtime, cls: ClassRef, rt1: Runtime, d: int)
    requires
        rt0.wf(),
        rt0.classes.valid(cls),
        caches_after_change(rt0.classes, rt1.classes, cls, true),
        forall|x: int| 0 <= x < rt0.classes.classes@.len() && #[trigger] in_chain(rt0.classes, x, cls.0 as int) ==> threaded(rt0.classes, x),
        rt0.classes.classes@.len() <= usize::MAX,
        0 <= d < rt0.classes.classes@.len(),
        in_chain(rt0.classes, d, cls.0 as int),
    ensures
        rt1.classes.classes@[d].cache_empty(),
{
    lemma_tree_holds_descendants(rt0.classes, cls.0 as int, d);
}

} // verus!
