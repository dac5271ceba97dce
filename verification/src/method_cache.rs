//! Per-class method cache.
//!
//! The cache is a short list of `(selector, implementation)` pairs,
//! searched in order.  When it is full it is cleared rather than grown: it
//! is invalidated wholesale whenever a method list changes anyway.
use vstd::prelude::*;

use crate::class_registry::ClassTable;
use crate::sel::{sel_eq, SelectorTable};
use crate::types::{Class, ClassRef, ObjcClass, IMP, SEL};

verus! {

/// Maximum number of entries before the cache is cleared rather than grown.
pub const CACHE_CAPACITY: usize = 16;

/// The first position at or after `j` whose selector has the same name as
/// `sel`.
pub open spec fn cache_find(sels: SelectorTable, es: Seq<(SEL, IMP)>, sel: SEL, j: int) -> Option<int>
    decreases es.len() - j,
{
    if j < 0 || j >= es.len() {
        None
    } else if sels.key(es[j].0) == sels.key(sel) {
        Some(j)
    } else {
        cache_find(sels, es, sel, j + 1)
    }
}

/// What a lookup of `sel` in the entries `es` returns.
pub open spec fn cache_lookup(sels: SelectorTable, es: Seq<(SEL, IMP)>, sel: SEL) -> Option<IMP> {
    match cache_find(sels, es, sel, 0) {
        Some(j) => Some(es[j].1),
        None => None,
    }
}

/// The entries after inserting `(sel, imp)` into `es`: unchanged if a
/// selector of that name is cached already; otherwise appended, after
/// clearing the list if it is full.
pub open spec fn cache_inserted(sels: SelectorTable, es: Seq<(SEL, IMP)>, sel: SEL, imp: IMP) -> Seq<(SEL, IMP)> {
    if cache_find(sels, es, sel, 0) is Some {
        es
    } else if es.len() >= CACHE_CAPACITY {
        seq![(sel, imp)]
    } else {
        es.push((sel, imp))
    }
}

/// Per-class method cache.
pub struct MethodCache {
    pub entries: Vec<(SEL, IMP)>,
}

impl MethodCache {
    /// The cached pairs, in order.
    pub open spec fn view(&self) -> Seq<(SEL, IMP)> {
        self.entries@
    }

    /// The cache holds at most `CACHE_CAPACITY` entries, each with a
    /// selector below `num_sels`.
    pub open spec fn wf(&self, num_sels: nat) -> bool {
        &&& self.entries@.len() <= CACHE_CAPACITY
        &&& forall|i: int| 0 <= i < self.entries@.len() ==> #[trigger] self.entries@[i].0 < num_sels
    }

    /// What looking up `sel` returns.
    pub open spec fn spec_lookup(&self, sels: SelectorTable, sel: SEL) -> Option<IMP> {
        cache_lookup(sels, self.entries@, sel)
    }

    /// A new, empty cache.
    pub fn new() -> (r: MethodCache)
        ensures
            r.entries@.len() == 0,
    {
        MethodCache { entries: Vec::with_capacity(CACHE_CAPACITY) }
    }

    /// Look up `sel`; `None` on a miss.
    pub fn lookup(&self, sels: &SelectorTable, sel: SEL) -> (r: Option<IMP>)
        requires
            sels.wf(),
            self.wf(sels.num_sels()),
            sel < sels.num_sels(),
        ensures
            r == self.spec_lookup(*sels, sel),
    {
        let found = self.find(sels, sel);
        match found {
            Some(j) => Some(self.entries[j].1),
            None => None,
        }
    }

    /// The position of the first entry whose selector has the name of `sel`.
    fn find(&self, sels: &SelectorTable, sel: SEL) -> (r: Option<usize>)
        requires
            sels.wf(),
            self.wf(sels.num_sels()),
            sel < sels.num_sels(),
        ensures
            r matches Some(j) ==> cache_find(*sels, self.entries@, sel, 0) == Some(j as int) && j
                < self.entries@.len(),
            r is None ==> cache_find(*sels, self.entries@, sel, 0) is None,
    {
        let mut j: usize = 0;
        while j < self.entries.len()
            invariant
                sels.wf(),
                self.wf(sels.num_sels()),
                sel < sels.num_sels(),
                j <= self.entries@.len(),
                cache_find(*sels, self.entries@, sel, 0) == cache_find(*sels, self.entries@, sel, j as int),
            decreases self.entries@.len() - j,
        {
            if sel_eq(sels, self.entries[j].0, sel) {
                proof {
                    lemma_cache_find_first(*sels, self.entries@, sel, 0);
                }
                return Some(j);
            }
            j = j + 1;
        }
        None
    }

    /// Insert `(sel, imp)`.  Nothing changes if a selector of that name is
    /// cached already; a full cache is cleared first.
    pub fn insert(&mut self, sels: &SelectorTable, sel: SEL, imp: IMP)
        requires
            sels.wf(),
            old(self).wf(sels.num_sels()),
            sel < sels.num_sels(),
        ensures
            final(self).wf(sels.num_sels()),
            final(self).entries@ == cache_inserted(*sels, old(self).entries@, sel, imp),
    {
        if self.find(sels, sel).is_some() {
            return;
        }
        if self.entries.len() >= CACHE_CAPACITY {
            self.entries.clear();
        }
        self.entries.push((sel, imp));
        proof {
            if old(self).entries@.len() >= CACHE_CAPACITY {
                assert(self.entries@ =~= seq![(sel, imp)]);
            }
        }
    }

    /// Clear all entries.
    pub fn flush(&mut self)
        ensures
            final(self).entries@.len() == 0,
    {
        self.entries.clear();
    }
}

/// Finding a position depends only on the name of the selector looked for.
pub proof fn lemma_cache_find_by_name(sels: SelectorTable, es: Seq<(SEL, IMP)>, a: SEL, b: SEL, j: int)
    requires
        sels.key(a) == sels.key(b),
    ensures
        cache_find(sels, es, a, j) == cache_find(sels, es, b, j),
    decreases es.len() - j,
{
    if 0 <= j < es.len() {
        lemma_cache_find_by_name(sels, es, a, b, j + 1);
    }
}

/// A position found is within range, its selector has the name looked
/// for, and no earlier position from `j` on has.
pub proof fn lemma_cache_find_first(sels: SelectorTable, es: Seq<(SEL, IMP)>, sel: SEL, j: int)
    requires
        0 <= j,
    ensures
        cache_find(sels, es, sel, j) matches Some(k) ==> {
            &&& j <= k < es.len()
            &&& sels.key(es[k].0) == sels.key(sel)
            &&& forall|m: int| j <= m < k ==> sels.key(#[trigger] es[m].0) != sels.key(sel)
        },
        cache_find(sels, es, sel, j) is None ==> forall|m: int|
            j <= m < es.len() ==> sels.key(#[trigger] es[m].0) != sels.key(sel),
    decreases es.len() - j,
{
    if j < es.len() {
        lemma_cache_find_first(sels, es, sel, j + 1);
    }
}

/// The first matching position from `j` on is what `cache_find` finds.
pub proof fn lemma_cache_find_is_first(sels: SelectorTable, es: Seq<(SEL, IMP)>, sel: SEL, j: int, k: int)
    requires
        0 <= j <= k < es.len(),
        sels.key(es[k].0) == sels.key(sel),
        forall|m: int| j <= m < k ==> sels.key(#[trigger] es[m].0) != sels.key(sel),
    ensures
        cache_find(sels, es, sel, j) == Some(k),
    decreases k - j,
{
    if j < k {
        lemma_cache_find_is_first(sels, es, sel, j + 1, k);
    }
}

/// After inserting `(sel, imp)`, looking up any selector of the same name
/// hits: it returns `imp` if the lookup missed before, and what it returned
/// before otherwise.
pub proof fn lemma_lookup_after_insert(sels: SelectorTable, es: Seq<(SEL, IMP)>, sel: SEL, imp: IMP, other: SEL)
    requires
        sels.key(other) == sels.key(sel),
    ensures
        cache_lookup(sels, cache_inserted(sels, es, sel, imp), other) == (match cache_lookup(sels, es, sel) {
            Some(old_imp) => Some(old_imp),
            None => Some(imp),
        }),
{
    lemma_cache_find_by_name(sels, es, sel, other, 0);
    let new_es = cache_inserted(sels, es, sel, imp);
    lemma_cache_find_by_name(sels, new_es, sel, other, 0);
    if cache_find(sels, es, sel, 0) is None {
        lemma_cache_find_first(sels, es, sel, 0);
        lemma_cache_find_first(sels, new_es, sel, 0);
        if es.len() >= CACHE_CAPACITY {
            assert(new_es[0] == (sel, imp));
        } else {
            let k = es.len() as int;
            assert(new_es[k] == (sel, imp));
            assert forall|m: int| 0 <= m < k implies sels.key(#[trigger] new_es[m].0) != sels.key(sel) by {
                assert(new_es[m] == es[m]);
            }
            lemma_cache_find_is_first(sels, new_es, sel, 0, k);
        }
    }
}

/// The subclass links of every class: its first subclass and its next
/// sibling.
pub open spec fn tree_links(t: ClassTable) -> Seq<(Class, Class)> {
    t.classes@.map_values(|k: ObjcClass| (k.subclass_list, k.sibling_class))
}

/// A rank that decreases along sibling links.
pub open spec fn opt_rank(s: Class) -> int {
    match s {
        Some(x) => x.0 + 1,
        None => 0,
    }
}

/// Class `d` is `c` or lies in the subclass tree below `c`, following
/// first-subclass and next-sibling links.
pub open spec fn subtree_has(ls: Seq<(Class, Class)>, c: int, d: int) -> bool
    decreases ls.len() - c, ls.len() + 1,
{
    if 0 <= c < ls.len() {
        if d == c {
            true
        } else if opt_rank(ls[c].0) <= ls.len() {
            chain_has(ls, c, ls[c].0, d)
        } else {
            false
        }
    } else {
        false
    }
}

/// Class `d` lies in the subtree of `s` or of one of its later siblings,
/// all of them subclasses of `parent`.
pub open spec fn chain_has(ls: Seq<(Class, Class)>, parent: int, s: Class, d: int) -> bool
    decreases ls.len() - parent, opt_rank(s),
{
    match s {
        Some(x) => if 0 <= parent < x.0 < ls.len() {
            subtree_has(ls, x.0 as int, d) || (opt_rank(ls[x.0 as int].1) < opt_rank(s) && chain_has(
                ls,
                parent,
                ls[x.0 as int].1,
                d,
            ))
        } else {
            false
        },
        None => false,
    }
}

/// Two tables that differ at most in cache contents have the same subclass
/// links.
pub proof fn lemma_same_links(t: ClassTable, u: ClassTable)
    requires
        t.same_but_caches(&u),
    ensures
        tree_links(t) == tree_links(u),
{
    assert(tree_links(t) =~= tree_links(u)) by {
        assert forall|i: int| 0 <= i < t.classes@.len() implies tree_links(t)[i] == tree_links(u)[i] by {
            assert(t.classes@[i].same_but_cache(&u.classes@[i]));
        }
    }
}

/// Clear the method cache of `cls` and of every class in the subclass
/// tree below it.
pub fn flush_class_cache_tree(t: &mut ClassTable, cls: ClassRef)
    requires
        old(t).wf(),
        old(t).valid(cls),
    ensures
        old(t).same_but_caches(final(t)),
        forall|d: int|
            0 <= d < old(t).classes@.len() && subtree_has(tree_links(*old(t)), cls.0 as int, d)
                ==> (#[trigger] final(t).classes@[d]).cache_empty(),
        forall|d: int|
            0 <= d < old(t).classes@.len() && !subtree_has(tree_links(*old(t)), cls.0 as int, d)
                ==> #[trigger] final(t).classes@[d] == old(t).classes@[d],
    decreases old(t).classes@.len() - cls.0,
{
    let ghost t0 = *t;
    let ghost ls = tree_links(t0);
    let c = cls.0;
    match &mut t.classes[c].dtable {
        Some(cache) => cache.flush(),
        None => {},
    }
    proof {
        assert(t0.links_ok(c as int));
        assert(t0.classes@[c as int].same_but_cache(&t.classes@[c as int]));
        assert forall|k: int| 0 <= k < t0.classes@.len() implies #[trigger] t0.classes@[k].same_but_cache(&t.classes@[k]) by {
            if k != c {
                assert(t.classes@[k] == t0.classes@[k]);
            }
        }
    }
    let ghost first = t0.classes@[c as int].subclass_list;
    let mut s = t.classes[c].subclass_list;
    loop
        invariant
            t0.wf(),
            t0 == *old(t),
            c == cls.0,
            0 <= c < t0.classes@.len(),
            ls == tree_links(t0),
            t0.same_but_caches(&*t),
            first == t0.classes@[c as int].subclass_list,
            s matches Some(x) ==> x.0 < t0.classes@.len() && t0.classes@[x.0 as int].super_class == Some(
                ClassRef(c),
            ),
            t.classes@[c as int].cache_empty(),
            forall|d: int| #[trigger] chain_has(ls, c as int, s, d) ==> chain_has(ls, c as int, first, d),
            forall|d: int|
                0 <= d < t0.classes@.len() && chain_has(ls, c as int, first, d) && !chain_has(ls, c as int, s, d)
                    ==> (#[trigger] t.classes@[d]).cache_empty(),
            forall|d: int|
                0 <= d < t0.classes@.len() && !subtree_has(ls, c as int, d) ==> #[trigger] t.classes@[d]
                    == t0.classes@[d],
            forall|d: int|
                0 <= d < t0.classes@.len() ==> #[trigger] t.classes@[d] == t0.classes@[d]
                    || t.classes@[d].cache_empty(),
        ensures
            t0.same_but_caches(&*t),
            forall|d: int|
                0 <= d < t0.classes@.len() && subtree_has(ls, c as int, d) ==> (
                #[trigger] t.classes@[d]).cache_empty(),
            forall|d: int|
                0 <= d < t0.classes@.len() && !subtree_has(ls, c as int, d) ==> #[trigger] t.classes@[d]
                    == t0.classes@[d],
        decreases opt_rank(s),
    {
        match s {
            None => {
                proof {
                    assert forall|d: int|
                        0 <= d < t0.classes@.len() && subtree_has(ls, c as int, d) implies (
                        #[trigger] t.classes@[d]).cache_empty() by {
                        assert(ls[c as int].0 == first);
                        if d != c {
                            assert(chain_has(ls, c as int, first, d));
                        }
                    }
                }
                break;
            },
            Some(x) => {
                let ghost tb = *t;
                proof {
                    assert(t0.links_ok(x.0 as int));
                    assert(t0.links_ok(c as int));
                    lemma_same_links(t0, tb);
                    assert(tb.wf()) by {
                        assert forall|k: int| 0 <= k < tb.classes@.len() implies #[trigger] tb.links_ok(k) by {
                            assert(t0.links_ok(k));
                            assert(t0.classes@[k].same_but_cache(&tb.classes@[k]));
                            if let Some(y) = tb.classes@[k].subclass_list {
                                assert(t0.classes@[y.0 as int].same_but_cache(&tb.classes@[y.0 as int]));
                            }
                            if let Some(y) = tb.classes@[k].sibling_class {
                                assert(t0.classes@[y.0 as int].same_but_cache(&tb.classes@[y.0 as int]));
                            }
                        }
                    }
                    assert(c < x.0);
                    assert(tb.classes@.len() - x.0 < old(t).classes@.len() - cls.0);
                }
                let ghost s_old = s;
                flush_class_cache_tree(t, x);
                proof {
                    let ta = *t;
                    lemma_same_links(tb, ta);
                    lemma_same_links(t0, tb);
                    // unfolding one step of the chain
                    assert forall|d: int| #[trigger] chain_has(ls, c as int, s, d) == (subtree_has(ls, x.0 as int, d) || chain_has(ls, c as int, ls[x.0 as int].1, d)) by {
                        assert(ls[x.0 as int].1 == t0.classes@[x.0 as int].sibling_class);
                    }
                    assert forall|k: int| 0 <= k < t0.classes@.len() implies #[trigger] t0.classes@[k].same_but_cache(&ta.classes@[k]) by {
                        assert(t0.classes@[k].same_but_cache(&tb.classes@[k]));
                        assert(tb.classes@[k].same_but_cache(&ta.classes@[k]));
                    }
                    assert forall|d: int| 0 <= d < t0.classes@.len() && subtree_has(ls, x.0 as int, d) implies chain_has(ls, c as int, first, d) by {
                        assert(chain_has(ls, c as int, s, d));
                    }
                }
                proof {
                    assert(t0.classes@[x.0 as int].same_but_cache(&t.classes@[x.0 as int]));
                }
                s = t.classes[x.0].sibling_class;
                proof {
                    let sib = t0.classes@[x.0 as int].sibling_class;
                    assert(s == sib);
                    if let Some(y) = sib {
                        assert(t0.classes@[y.0 as int].super_class == t0.classes@[x.0 as int].super_class);
                    }
                    assert forall|d: int| #[trigger] chain_has(ls, c as int, s, d) implies chain_has(ls, c as int, first, d) by {
                        assert(chain_has(ls, c as int, s_old, d));
                    }
                }
            },
        }
    }
}

/// Class `d` lies in the subclass tree of some registered class.
pub open spec fn in_registered_tree(t: ClassTable, d: int) -> bool {
    exists|i: int| 0 <= i < t.registry@.len() && #[trigger] subtree_has(tree_links(t), t.registry@[i].cls.0 as int, d)
}

/// A table whose caches were only cleared keeps its consistency and its
/// bounds.
pub proof fn lemma_flushed_keeps_wf(t0: ClassTable, t1: ClassTable, n: nat)
    requires
        t0.wf(),
        t0.bounded(n),
        t0.same_but_caches(&t1),
        forall|d: int| 0 <= d < t0.classes@.len() ==> #[trigger] t1.classes@[d] == t0.classes@[d] || t1.classes@[d].cache_empty(),
    ensures
        t1.wf(),
        t1.bounded(n),
{
    assert forall|k: int| 0 <= k < t1.classes@.len() implies #[trigger] t1.links_ok(k) by {
        assert(t0.links_ok(k));
        assert(t0.classes@[k].same_but_cache(&t1.classes@[k]));
        if let Some(y) = t1.classes@[k].subclass_list {
            assert(t0.classes@[y.0 as int].same_but_cache(&t1.classes@[y.0 as int]));
        }
        if let Some(y) = t1.classes@[k].sibling_class {
            assert(t0.classes@[y.0 as int].same_but_cache(&t1.classes@[y.0 as int]));
        }
    }
    assert forall|c: int, i: int, j: int|
        0 <= c < t1.classes@.len() && 0 <= i < t1.classes@[c].method_list@.len() && 0 <= j
            < t1.classes@[c].method_list@[i].entries@.len()
        implies #[trigger] t1.classes@[c].method_list@[i].entries@[j].sel < n by {
        assert(t0.classes@[c].same_but_cache(&t1.classes@[c]));
    }
    assert forall|c: int| 0 <= c < t1.classes@.len() implies (#[trigger] t1.classes@[c].dtable matches Some(m) ==> m.wf(n)) by {
        assert(t0.classes@[c].dtable matches Some(m) ==> m.wf(n));
    }
}

/// Clear the caches of every registered class and of the classes in their
/// subclass trees.
pub fn flush_all_caches(t: &mut ClassTable)
    requires
        old(t).wf(),
    ensures
        old(t).same_but_caches(final(t)),
        forall|d: int|
            0 <= d < old(t).classes@.len() && in_registered_tree(*old(t), d) ==> (
            #[trigger] final(t).classes@[d]).cache_empty(),
        forall|d: int|
            0 <= d < old(t).classes@.len() && !in_registered_tree(*old(t), d) ==> #[trigger] final(t).classes@[d]
                == old(t).classes@[d],
{
    let ghost t0 = *t;
    let ghost ls = tree_links(t0);
    let n = t.registry.len();
    let mut i: usize = 0;
    proof {
        assert forall|k: int| 0 <= k < t0.classes@.len() implies #[trigger] t0.classes@[k].same_but_cache(&t0.classes@[k]) by {}
    }
    while i < n
        invariant
            t0.wf(),
            t0 == *old(t),
            ls == tree_links(t0),
            n == t0.registry@.len(),
            i <= n,
            t0.same_but_caches(&*t),
            forall|d: int|
                0 <= d < t0.classes@.len() && (exists|k: int| 0 <= k < i && #[trigger] subtree_has(ls, t0.registry@[k].cls.0 as int, d))
                    ==> (#[trigger] t.classes@[d]).cache_empty(),
            forall|d: int|
                0 <= d < t0.classes@.len() && !in_registered_tree(t0, d) ==> #[trigger] t.classes@[d] == t0.classes@[d],
            forall|d: int|
                0 <= d < t0.classes@.len() ==> #[trigger] t.classes@[d] == t0.classes@[d]
                    || t.classes@[d].cache_empty(),
        decreases n - i,
    {
        let ghost tb = *t;
        proof {
            lemma_same_links(t0, tb);
            assert(tb.wf()) by {
                assert forall|k: int| 0 <= k < tb.classes@.len() implies #[trigger] tb.links_ok(k) by {
                    assert(t0.links_ok(k));
                    assert(t0.classes@[k].same_but_cache(&tb.classes@[k]));
                    if let Some(y) = tb.classes@[k].subclass_list {
                        assert(t0.classes@[y.0 as int].same_but_cache(&tb.classes@[y.0 as int]));
                    }
                    if let Some(y) = tb.classes@[k].sibling_class {
                        assert(t0.classes@[y.0 as int].same_but_cache(&tb.classes@[y.0 as int]));
                    }
                }
            }
        }
        let cls = t.registry[i].cls;
        flush_class_cache_tree(t, cls);
        proof {
            let ta = *t;
            lemma_same_links(tb, ta);
            assert forall|k: int| 0 <= k < t0.classes@.len() implies #[trigger] t0.classes@[k].same_but_cache(&ta.classes@[k]) by {
                assert(t0.classes@[k].same_but_cache(&tb.classes@[k]));
                assert(tb.classes@[k].same_but_cache(&ta.classes@[k]));
            }
            assert forall|d: int|
                0 <= d < t0.classes@.len() && (exists|k: int| 0 <= k < i + 1 && #[trigger] subtree_has(ls, t0.registry@[k].cls.0 as int, d))
                implies (#[trigger] ta.classes@[d]).cache_empty() by {
                let k = choose|k: int| 0 <= k < i + 1 && #[trigger] subtree_has(ls, t0.registry@[k].cls.0 as int, d);
                if k < i {
                    assert(tb.classes@[d].cache_empty());
                }
            }
            assert forall|d: int| 0 <= d < t0.classes@.len() && !in_registered_tree(t0, d) implies #[trigger] ta.classes@[d] == t0.classes@[d] by {
                if subtree_has(ls, cls.0 as int, d) {
                    assert(subtree_has(tree_links(t0), t0.registry@[i as int].cls.0 as int, d));
                }
            }
        }
        i = i + 1;
    }
}

} // verus!
