//! The class table and registry: allocating class pairs, registering
//! classes, and adding, replacing and exchanging methods.
use vstd::prelude::*;

use crate::method_cache::{
    opt_rank, flush_all_caches, flush_class_cache_tree, in_registered_tree, lemma_flushed_keeps_wf, lemma_same_links, subtree_has, tree_links,
    MethodCache,
};
use crate::sel::{sel_eq, SelectorTable};
use crate::types::{
    Class, ClassRef, MethodEntry, MethodList, ObjcClass, CLASS_IS_METACLASS, CLASS_RECORD_SIZE,
    CLASS_REGISTERED, IMP, OBJECT_HEADER_SIZE, SEL,
};

verus! {

/// A registry entry: a class name and the class registered under it.
pub struct RegistryEntry {
    pub name: String,
    pub cls: ClassRef,
}

/// All class records, and the registry of live classes by name.
pub struct ClassTable {
    pub classes: Vec<ObjcClass>,
    pub registry: Vec<RegistryEntry>,
}

/// The whole runtime state that method dispatch reads: selectors and
/// classes.
pub struct Runtime {
    pub sels: SelectorTable,
    pub classes: ClassTable,
    /// The compiled class records loaded so far: record address and class.
    pub loaded: Vec<(usize, ClassRef)>,
}

/// The position in a class's method-list chain of the method that a
/// lookup on that class alone finds, or that a method handle designates.
#[derive(Clone, Copy, Debug, PartialEq, Eq, Structural)]
pub struct MethodRef {
    pub cls: ClassRef,
    pub list: usize,
    pub index: usize,
}

/// Whether `info` has the registered flag.
pub open spec fn is_registered(info: u64) -> bool {
    info & CLASS_REGISTERED != 0
}

/// The class of the first entry from position `i` on whose name is `name`.
pub open spec fn registry_find(reg: Seq<RegistryEntry>, name: Seq<char>, i: int) -> Class
    decreases reg.len() - i,
{
    if i < 0 || i >= reg.len() {
        None
    } else if reg[i].name@ == name {
        Some(reg[i].cls)
    } else {
        registry_find(reg, name, i + 1)
    }
}

impl ObjcClass {
    /// `other` differs from `self` at most in the contents of its cache.
    pub open spec fn same_but_cache(&self, other: &ObjcClass) -> bool {
        &&& self.isa == other.isa
        &&& self.super_class == other.super_class
        &&& self.name == other.name
        &&& self.version == other.version
        &&& self.info == other.info
        &&& self.instance_size == other.instance_size
        &&& self.method_list == other.method_list
        &&& self.subclass_list == other.subclass_list
        &&& self.sibling_class == other.sibling_class
        &&& self.abi_version == other.abi_version
        &&& (self.dtable is Some <==> other.dtable is Some)
    }

    /// The class's cache is absent or empty.
    pub open spec fn cache_empty(&self) -> bool {
        self.dtable matches Some(m) ==> m.entries@.len() == 0
    }
}

impl ClassTable {
    /// The number of class records.
    pub open spec fn len(&self) -> nat {
        self.classes@.len()
    }

    /// `c` refers to a class record.
    pub open spec fn valid(&self, c: ClassRef) -> bool {
        c.0 < self.classes@.len()
    }

    /// `c` refers to a class record, or is `None`.
    pub open spec fn valid_opt(&self, c: Class) -> bool {
        c matches Some(x) ==> self.valid(x)
    }

    /// The links of class `c` are consistent: a superclass comes before
    /// its subclasses, the first subclass is a later class whose superclass
    /// is `c`, and the next sibling is an earlier class with the same
    /// superclass.
    pub open spec fn links_ok(&self, c: int) -> bool {
        let k = self.classes@[c];
        &&& (k.super_class matches Some(s) ==> s.0 < c)
        &&& (k.isa matches Some(m) ==> m.0 < self.classes@.len())
        &&& (k.subclass_list matches Some(x) ==> c < x.0 < self.classes@.len()
            && self.classes@[x.0 as int].super_class == Some(ClassRef(c as usize)))
        &&& (k.sibling_class matches Some(y) ==> y.0 < c && k.super_class is Some
            && self.classes@[y.0 as int].super_class == k.super_class)
    }

    /// Registered names are distinct and refer to class records.
    pub open spec fn registry_ok(&self) -> bool {
        &&& forall|i: int| 0 <= i < self.registry@.len() ==> #[trigger] self.registry@[i].cls.0 < self.classes@.len()
        &&& forall|i: int, j: int|
            0 <= i < self.registry@.len() && 0 <= j < self.registry@.len() && i != j
                ==> #[trigger] self.registry@[i].name@ != #[trigger] self.registry@[j].name@
    }

    /// The table is consistent.
    pub open spec fn wf(&self) -> bool {
        &&& forall|c: int| 0 <= c < self.classes@.len() ==> #[trigger] self.links_ok(c)
        &&& self.registry_ok()
    }

    /// Every selector the table holds (in method lists and caches) is below
    /// `n`, and every cache is within its capacity.
    pub open spec fn bounded(&self, n: nat) -> bool {
        &&& forall|c: int, i: int, j: int|
            0 <= c < self.classes@.len() && 0 <= i < self.classes@[c].method_list@.len() && 0 <= j
                < self.classes@[c].method_list@[i].entries@.len()
                ==> #[trigger] self.classes@[c].method_list@[i].entries@[j].sel < n
        &&& forall|c: int|
            0 <= c < self.classes@.len() ==> (#[trigger] self.classes@[c].dtable matches Some(m) ==> m.wf(n))
    }

    /// The class registered under `name`, searching from position `i`.
    pub open spec fn registry_lookup_from(&self, name: Seq<char>, i: int) -> Class {
        registry_find(self.registry@, name, i)
    }

    /// The class registered under `name`.
    pub open spec fn registry_lookup(&self, name: Seq<char>) -> Class {
        registry_find(self.registry@, name, 0)
    }

    /// `new` differs from `self` at most in the contents of caches.
    pub open spec fn same_but_caches(&self, new: &ClassTable) -> bool {
        &&& new.classes@.len() == self.classes@.len()
        &&& new.registry == self.registry
        &&& forall|c: int| 0 <= c < self.classes@.len() ==> #[trigger] self.classes@[c].same_but_cache(&new.classes@[c])
    }

    /// An empty table.
    pub fn new() -> (r: ClassTable)
        ensures
            r.wf(),
            r.classes@.len() == 0,
            r.registry@.len() == 0,
    {
        ClassTable { classes: Vec::new(), registry: Vec::new() }
    }
}

impl Runtime {
    /// The runtime's tables are consistent with each other.
    pub open spec fn wf(&self) -> bool {
        &&& self.sels.wf()
        &&& self.classes.wf()
        &&& self.classes.bounded(self.sels.num_sels())
        &&& forall|i: int| 0 <= i < self.loaded@.len() ==> (#[trigger] self.loaded@[i]).1.0 < self.classes.classes@.len()
    }

    /// A runtime with no selectors and no classes.
    pub fn new() -> (r: Runtime)
        ensures
            r.wf(),
            r.classes.classes@.len() == 0,
            r.classes.registry@.len() == 0,
            r.sels.num_sels() == 0,
            r.loaded@.len() == 0,
    {
        Runtime { sels: SelectorTable::new(), classes: ClassTable::new(), loaded: Vec::new() }
    }
}

/// The class `c` and its superclasses, nearest first.
pub open spec fn ancestors_of(t: ClassTable, c: ClassRef) -> Seq<ClassRef>
    decreases c.0,
{
    if c.0 < t.classes@.len() {
        match t.classes@[c.0 as int].super_class {
            Some(s) => if s.0 < c.0 {
                seq![c].add(ancestors_of(t, s))
            } else {
                seq![c]
            },
            None => seq![c],
        }
    } else {
        seq![c]
    }
}

/// The class `s` and its later siblings, in list order.
pub open spec fn sibling_chain(t: ClassTable, s: Class) -> Seq<ClassRef>
    decreases opt_rank(s),
{
    match s {
        Some(x) => if x.0 < t.classes@.len() && opt_rank(t.classes@[x.0 as int].sibling_class) < opt_rank(s) {
            seq![x].add(sibling_chain(t, t.classes@[x.0 as int].sibling_class))
        } else {
            seq![x]
        },
        None => Seq::empty(),
    }
}

/// The method lists of class `cls`, head first, as the chain a method
/// search walks.
pub fn method_list_iter(t: &ClassTable, cls: ClassRef) -> (r: Vec<&MethodList>)
    requires
        t.valid(cls),
    ensures
        r@.len() == t.classes@[cls.0 as int].method_list@.len(),
        forall|i: int| 0 <= i < r@.len() ==> *#[trigger] r@[i] == t.classes@[cls.0 as int].method_list@[i],
{
    let lists = &t.classes[cls.0].method_list;
    let mut r: Vec<&MethodList> = Vec::new();
    let mut i: usize = 0;
    while i < lists.len()
        invariant
            i <= lists@.len(),
            lists@ == t.classes@[cls.0 as int].method_list@,
            r@.len() == i,
            forall|k: int| 0 <= k < i ==> *#[trigger] r@[k] == lists@[k],
        decreases lists@.len() - i,
    {
        r.push(&lists[i]);
        i = i + 1;
    }
    r
}

/// In a consistent table a list of subclasses holds its classes in
/// decreasing order, so no class occurs in it twice.
pub proof fn lemma_sibling_chain_decreasing(t: ClassTable, x: Class)
    requires
        t.wf(),
        x matches Some(y) ==> y.0 < t.classes@.len(),
    ensures
        forall|i: int, j: int|
            0 <= i < j < sibling_chain(t, x).len() ==> #[trigger] sibling_chain(t, x)[i].0 > #[trigger] sibling_chain(t, x)[j].0,
    decreases opt_rank(x),
{
    if let Some(y) = x {
        assert(t.links_ok(y.0 as int));
        let z = t.classes@[y.0 as int].sibling_class;
        lemma_sibling_chain_decreasing(t, z);
        let c = sibling_chain(t, x);
        let rest = sibling_chain(t, z);
        assert(c == seq![y].add(rest));
        if let Some(w) = z {
            assert(t.links_ok(w.0 as int));
            assert(rest[0] == w);
        }
        assert forall|i: int, j: int| 0 <= i < j < c.len() implies #[trigger] c[i].0 > #[trigger] c[j].0 by {
            if i == 0 {
                assert(c[j] == rest[j - 1]);
                if j > 1 {
                    assert(rest[0].0 > rest[j - 1].0);
                }
            } else {
                assert(c[i] == rest[i - 1]);
                assert(c[j] == rest[j - 1]);
            }
        }
    }
}

impl ClassRef {
    /// The class at index `index` of the class table.
    pub fn from_raw(index: usize) -> (r: ClassRef)
        ensures
            r.0 == index,
    {
        ClassRef(index)
    }

    /// The class's index in the class table.
    pub fn as_ptr(self) -> (r: usize)
        ensures
            r == self.0,
    {
        self.0
    }

    /// The metaclass.
    pub fn isa(self, t: &ClassTable) -> (r: Class)
        requires
            t.valid(self),
        ensures
            r == t.classes@[self.0 as int].isa,
    {
        t.classes[self.0].isa
    }

    /// The superclass, or `None` for a root class.
    pub fn superclass(self, t: &ClassTable) -> (r: Class)
        requires
            t.valid(self),
        ensures
            r == t.classes@[self.0 as int].super_class,
    {
        t.classes[self.0].super_class
    }

    /// The chain of method lists, head first.
    pub fn method_list(self, t: &ClassTable) -> (r: &Vec<MethodList>)
        requires
            t.valid(self),
        ensures
            r@ == t.classes@[self.0 as int].method_list@,
    {
        &t.classes[self.0].method_list
    }

    /// The per-class method cache.
    pub fn cache(self, t: &ClassTable) -> (r: Option<&MethodCache>)
        requires
            t.valid(self),
        ensures
            r is Some <==> t.classes@[self.0 as int].dtable is Some,
            r matches Some(m) ==> t.classes@[self.0 as int].dtable == Some(*m),
    {
        t.classes[self.0].cache()
    }

    /// The first subclass in the class's list of subclasses.
    pub fn subclass_list(self, t: &ClassTable) -> (r: Class)
        requires
            t.valid(self),
        ensures
            r == t.classes@[self.0 as int].subclass_list,
    {
        t.classes[self.0].subclass_list
    }

    /// The next sibling in the superclass's list of subclasses.
    pub fn sibling_class(self, t: &ClassTable) -> (r: Class)
        requires
            t.valid(self),
        ensures
            r == t.classes@[self.0 as int].sibling_class,
    {
        t.classes[self.0].sibling_class
    }

    /// The class and its superclasses, nearest first.
    pub fn ancestors(self, t: &ClassTable) -> (r: Vec<ClassRef>)
        requires
            t.wf(),
            t.valid(self),
        ensures
            r@ == ancestors_of(*t, self),
    {
        let mut r: Vec<ClassRef> = Vec::new();
        let mut cur = Some(self);
        loop
            invariant
                t.wf(),
                cur matches Some(x) ==> t.valid(x),
                ancestors_of(*t, self) == r@ + match cur {
                    Some(x) => ancestors_of(*t, x),
                    None => Seq::empty(),
                },
            decreases opt_rank(cur),
        {
            match cur {
                None => {
                    proof {
                        assert(r@ + Seq::<ClassRef>::empty() =~= r@);
                    }
                    return r;
                },
                Some(x) => {
                    proof {
                        assert(t.links_ok(x.0 as int));
                    }
                    let ghost before = r@;
                    r.push(x);
                    cur = t.classes[x.0].super_class;
                    proof {
                        match cur {
                            Some(s) => {
                                assert(ancestors_of(*t, x) == seq![x].add(ancestors_of(*t, s)));
                                assert(before + ancestors_of(*t, x) =~= r@ + ancestors_of(*t, s));
                            },
                            None => {
                                assert(ancestors_of(*t, x) == seq![x]);
                                assert(before + ancestors_of(*t, x) =~= r@ + Seq::<ClassRef>::empty());
                            },
                        }
                    }
                },
            }
        }
    }

    /// The class's direct subclasses, in list order.
    pub fn subclasses(self, t: &ClassTable) -> (r: Vec<ClassRef>)
        requires
            t.wf(),
            t.valid(self),
        ensures
            r@ == sibling_chain(*t, t.classes@[self.0 as int].subclass_list),
    {
        let mut r: Vec<ClassRef> = Vec::new();
        let mut cur = t.classes[self.0].subclass_list;
        proof {
            assert(t.links_ok(self.0 as int));
        }
        loop
            invariant
                t.wf(),
                cur matches Some(x) ==> t.valid(x),
                sibling_chain(*t, t.classes@[self.0 as int].subclass_list) == r@ + sibling_chain(*t, cur),
            decreases opt_rank(cur),
        {
            match cur {
                None => {
                    proof {
                        assert(r@ + sibling_chain(*t, cur) =~= r@);
                    }
                    return r;
                },
                Some(x) => {
                    proof {
                        assert(t.links_ok(x.0 as int));
                    }
                    let ghost before = r@;
                    r.push(x);
                    cur = t.classes[x.0].sibling_class;
                    proof {
                        assert(sibling_chain(*t, Some(x)) == seq![x].add(sibling_chain(*t, cur)));
                        assert(before + sibling_chain(*t, Some(x)) =~= r@ + sibling_chain(*t, cur));
                    }
                },
            }
        }
    }
}

/// Allocate a new class and its metaclass; return the class (its
/// metaclass follows it).
///
/// The metaclass's superclass is the superclass's metaclass, and its own
/// metaclass is the root metaclass (that of the superclass's metaclass).
/// For a root class, the metaclass is its own metaclass and has the new
/// class as superclass.  The class's instance size is the superclass's (an
/// object header for a root class).  Both get an empty method cache.  The
/// new class becomes the first in its superclass's list of subclasses.  The
/// class is not registered.
pub fn objc_allocate_class_pair(rt: &mut Runtime, superclass: Class, name: &str, extra_bytes: usize) -> (r: ClassRef)
    requires
        old(rt).wf(),
        old(rt).classes.valid_opt(superclass),
        old(rt).classes.classes@.len() + 2 <= usize::MAX,
    ensures
        final(rt).wf(),
        final(rt).sels == old(rt).sels,
        final(rt).loaded == old(rt).loaded,
        final(rt).classes.registry == old(rt).classes.registry,
        ({
            let n = old(rt).classes.classes@.len() as int;
            let cls = final(rt).classes.classes@[n];
            let meta = final(rt).classes.classes@[n + 1];
            &&& r == ClassRef(n as usize)
            &&& final(rt).classes.classes@.len() == n + 2
            &&& meta.isa == (match superclass {
                Some(s) => match old(rt).classes.classes@[s.0 as int].isa {
                    Some(ms) => old(rt).classes.classes@[ms.0 as int].isa,
                    None => None,
                },
                None => Some(ClassRef((n + 1) as usize)),
            })
            &&& meta.super_class == (match superclass {
                Some(s) => old(rt).classes.classes@[s.0 as int].isa,
                None => Some(r),
            })
            &&& meta.name@ == name@
            &&& meta.version == 0
            &&& meta.info == CLASS_IS_METACLASS
            &&& meta.instance_size == CLASS_RECORD_SIZE
            &&& meta.method_list@.len() == 0
            &&& meta.dtable matches Some(m) && m.entries@.len() == 0
            &&& meta.subclass_list is None
            &&& meta.sibling_class is None
            &&& meta.abi_version == 0
            &&& cls.isa == Some(ClassRef((n + 1) as usize))
            &&& cls.super_class == superclass
            &&& cls.name@ == name@
            &&& cls.version == 0
            &&& cls.info == 0
            &&& cls.instance_size == (match superclass {
                Some(s) => old(rt).classes.classes@[s.0 as int].instance_size,
                None => OBJECT_HEADER_SIZE,
            })
            &&& cls.method_list@.len() == 0
            &&& cls.dtable matches Some(m) && m.entries@.len() == 0
            &&& cls.subclass_list is None
            &&& cls.sibling_class == (match superclass {
                Some(s) => old(rt).classes.classes@[s.0 as int].subclass_list,
                None => None,
            })
            &&& cls.abi_version == 0
            &&& forall|k: int|
                0 <= k < n ==> {
                    let o = old(rt).classes.classes@[k];
                    let f = #[trigger] final(rt).classes.classes@[k];
                    if superclass == Some(ClassRef(k as usize)) {
                        &&& f.subclass_list == Some(r)
                        &&& f.isa == o.isa
                        &&& f.super_class == o.super_class
                        &&& f.name == o.name
                        &&& f.version == o.version
                        &&& f.info == o.info
                        &&& f.instance_size == o.instance_size
                        &&& f.method_list == o.method_list
                        &&& f.dtable == o.dtable
                        &&& f.sibling_class == o.sibling_class
                        &&& f.abi_version == o.abi_version
                    } else {
                        f == o
                    }
                }
        }),
{
    let ghost old_t = rt.classes;
    let n = rt.classes.classes.len();
    let r = ClassRef(n);
    let (instance_size, meta_super, meta_isa, sibling) = match superclass {
        Some(s) => {
            proof {
                assert(old_t.links_ok(s.0 as int));
            }
            let ms = rt.classes.classes[s.0].isa;
            let root_meta = match ms {
                Some(m) => rt.classes.classes[m.0].isa,
                None => None,
            };
            (rt.classes.classes[s.0].instance_size, ms, root_meta, rt.classes.classes[s.0].subclass_list)
        },
        None => (OBJECT_HEADER_SIZE, Some(r), Some(ClassRef(n + 1)), None),
    };
    let class = ObjcClass {
        isa: Some(ClassRef(n + 1)),
        super_class: superclass,
        name: name.to_owned(),
        version: 0,
        info: 0,
        instance_size,
        method_list: Vec::new(),
        dtable: Some(MethodCache::new()),
        subclass_list: None,
        sibling_class: sibling,
        abi_version: 0,
    };
    rt.classes.classes.push(class);
    let metaclass = ObjcClass {
        isa: meta_isa,
        super_class: meta_super,
        name: name.to_owned(),
        version: 0,
        info: CLASS_IS_METACLASS,
        instance_size: CLASS_RECORD_SIZE,
        method_list: Vec::new(),
        dtable: Some(MethodCache::new()),
        subclass_list: None,
        sibling_class: None,
        abi_version: 0,
    };
    rt.classes.classes.push(metaclass);
    if let Some(s) = superclass {
        rt.classes.classes[s.0].subclass_list = Some(r);
    }
    proof {
        let t = rt.classes;
        assert forall|c: int| 0 <= c < t.classes@.len() implies #[trigger] t.links_ok(c) by {
            if c < n {
                assert(old_t.links_ok(c));
                let k = t.classes@[c];
                if let Some(x) = k.subclass_list {
                    if superclass != Some(ClassRef(c as usize)) {
                        assert(t.classes@[x.0 as int].super_class == old_t.classes@[x.0 as int].super_class);
                    }
                }
                if let Some(y) = k.sibling_class {
                    assert(old_t.classes@[c].sibling_class == Some(y));
                    let ys = old_t.classes@[y.0 as int].super_class;
                    assert(t.classes@[y.0 as int].super_class == ys);
                }
            } else if c == n {
                if let Some(s) = superclass {
                    assert(old_t.links_ok(s.0 as int));
                    if let Some(y) = old_t.classes@[s.0 as int].subclass_list {
                        assert(t.classes@[y.0 as int].super_class == old_t.classes@[y.0 as int].super_class);
                    }
                }
            } else {
                if let Some(s) = superclass {
                    assert(old_t.links_ok(s.0 as int));
                    if let Some(ms) = old_t.classes@[s.0 as int].isa {
                        assert(old_t.links_ok(ms.0 as int));
                    }
                }
            }
        }
        assert forall|c: int, i: int, j: int|
            0 <= c < t.classes@.len() && 0 <= i < t.classes@[c].method_list@.len() && 0 <= j
                < t.classes@[c].method_list@[i].entries@.len()
            implies #[trigger] t.classes@[c].method_list@[i].entries@[j].sel < rt.sels.num_sels() by {
            assert(c < n);
            assert(t.classes@[c].method_list == old_t.classes@[c].method_list);
        }
        assert forall|c: int| 0 <= c < t.classes@.len() implies (#[trigger] t.classes@[c].dtable matches Some(m) ==> m.wf(
            rt.sels.num_sels(),
        )) by {
            if c < n {
                assert(t.classes@[c].dtable == old_t.classes@[c].dtable);
            }
        }
    }
    r
}

/// With distinct names, a lookup finds the entry holding the name, and
/// nothing when no entry does.
pub proof fn lemma_registry_lookup(t: ClassTable, name: Seq<char>)
    requires
        t.registry_ok(),
    ensures
        forall|i: int|
            0 <= i < t.registry@.len() && #[trigger] t.registry@[i].name@ == name ==> t.registry_lookup(name)
                == Some(t.registry@[i].cls),
        (forall|i: int| 0 <= i < t.registry@.len() ==> #[trigger] t.registry@[i].name@ != name) ==> t.registry_lookup(
            name,
        ) is None,
{
    assert forall|i: int| 0 <= i < t.registry@.len() && #[trigger] t.registry@[i].name@ == name implies t.registry_lookup(
        name,
    ) == Some(t.registry@[i].cls) by {
        lemma_registry_lookup_from_found(t, name, 0, i);
    }
    if forall|i: int| 0 <= i < t.registry@.len() ==> #[trigger] t.registry@[i].name@ != name {
        lemma_registry_lookup_from_absent(t, name, 0);
    }
}

proof fn lemma_registry_lookup_from_found(t: ClassTable, name: Seq<char>, j: int, i: int)
    requires
        t.registry_ok(),
        0 <= j <= i < t.registry@.len(),
        t.registry@[i].name@ == name,
    ensures
        t.registry_lookup_from(name, j) == Some(t.registry@[i].cls),
    decreases i - j,
{
    if j < i {
        assert(t.registry@[j].name@ != t.registry@[i].name@);
        lemma_registry_lookup_from_found(t, name, j + 1, i);
    }
}

proof fn lemma_registry_lookup_from_absent(t: ClassTable, name: Seq<char>, j: int)
    requires
        0 <= j,
        forall|i: int| 0 <= i < t.registry@.len() ==> #[trigger] t.registry@[i].name@ != name,
    ensures
        t.registry_lookup_from(name, j) is None,
    decreases t.registry@.len() - j,
{
    if j < t.registry@.len() {
        assert(t.registry@[j].name@ != name);
        lemma_registry_lookup_from_absent(t, name, j + 1);
    }
}

/// Insert `cls` under `name` in the registry, replacing any class
/// registered under that name.
fn registry_insert(t: &mut ClassTable, name: String, cls: ClassRef)
    requires
        old(t).wf(),
        old(t).valid(cls),
    ensures
        final(t).wf(),
        final(t).classes == old(t).classes,
        final(t).registry_lookup(name@) == Some(cls),
        forall|other: Seq<char>| other != name@ ==> #[trigger] final(t).registry_lookup(other) == old(t).registry_lookup(other),
{
    let ghost old_t = *t;
    let mut i: usize = 0;
    while i < t.registry.len()
        invariant
            *t == old_t,
            old_t == *old(t),
            old_t.wf(),
            old_t.valid(cls),
            i <= t.registry@.len(),
            forall|m: int| 0 <= m < i ==> #[trigger] t.registry@[m].name@ != name@,
        decreases t.registry@.len() - i,
    {
        if t.registry[i].name == name {
            t.registry[i].cls = cls;
            proof {
                let nt = *t;
                assert forall|c: int| 0 <= c < nt.classes@.len() implies #[trigger] nt.links_ok(c) by {
                    assert(old_t.links_ok(c));
                }
                assert(nt.registry@[i as int].name@ == name@);
                assert forall|a: int, b: int|
                    0 <= a < nt.registry@.len() && 0 <= b < nt.registry@.len() && a != b
                    implies #[trigger] nt.registry@[a].name@ != #[trigger] nt.registry@[b].name@ by {
                    assert(nt.registry@[a].name == old_t.registry@[a].name);
                    assert(nt.registry@[b].name == old_t.registry@[b].name);
                }
                assert forall|m: int| 0 <= m < nt.registry@.len() implies #[trigger] nt.registry@[m].cls.0 < nt.classes@.len() by {
                    if m != i {
                        assert(nt.registry@[m] == old_t.registry@[m]);
                    }
                }
                lemma_registry_lookup(nt, name@);
                assert forall|other: Seq<char>| other != name@ implies #[trigger] nt.registry_lookup(other)
                    == old_t.registry_lookup(other) by {
                    lemma_registry_lookup(nt, other);
                    lemma_registry_lookup(old_t, other);
                    assert forall|m: int| 0 <= m < nt.registry@.len() implies #[trigger] nt.registry@[m].name@ == old_t.registry@[m].name@ by {
                        assert(nt.registry@[m].name == old_t.registry@[m].name);
                    }
                    if exists|m: int| 0 <= m < nt.registry@.len() && #[trigger] nt.registry@[m].name@ == other {
                        let m = choose|m: int| 0 <= m < nt.registry@.len() && #[trigger] nt.registry@[m].name@ == other;
                        assert(old_t.registry@[m].name@ == other);
                        assert(nt.registry@[m] == old_t.registry@[m]);
                    } else {
                        assert forall|m: int| 0 <= m < old_t.registry@.len() implies #[trigger] old_t.registry@[m].name@ != other by {
                            assert(nt.registry@[m].name@ == old_t.registry@[m].name@);
                        }
                    }
                }
            }
            return;
        }
        i = i + 1;
    }
    t.registry.push(RegistryEntry { name, cls });
    proof {
        let nt = *t;
        assert forall|c: int| 0 <= c < nt.classes@.len() implies #[trigger] nt.links_ok(c) by {
            assert(old_t.links_ok(c));
        }
        let k = old_t.registry@.len() as int;
        assert forall|a: int, b: int|
            0 <= a < nt.registry@.len() && 0 <= b < nt.registry@.len() && a != b
            implies #[trigger] nt.registry@[a].name@ != #[trigger] nt.registry@[b].name@ by {
            if a < k {
                assert(nt.registry@[a] == old_t.registry@[a]);
            }
            if b < k {
                assert(nt.registry@[b] == old_t.registry@[b]);
            }
        }
        assert forall|m: int| 0 <= m < nt.registry@.len() implies #[trigger] nt.registry@[m].cls.0 < nt.classes@.len() by {
            if m < k {
                assert(nt.registry@[m] == old_t.registry@[m]);
            }
        }
        lemma_registry_lookup(nt, name@);
        assert(nt.registry@[k].name@ == name@);
        assert forall|other: Seq<char>| other != name@ implies #[trigger] nt.registry_lookup(other)
            == old_t.registry_lookup(other) by {
            lemma_registry_lookup(nt, other);
            lemma_registry_lookup(old_t, other);
            if exists|m: int| 0 <= m < old_t.registry@.len() && #[trigger] old_t.registry@[m].name@ == other {
                let m = choose|m: int| 0 <= m < old_t.registry@.len() && #[trigger] old_t.registry@[m].name@ == other;
                assert(nt.registry@[m] == old_t.registry@[m]);
            } else {
                assert forall|m: int| 0 <= m < nt.registry@.len() implies #[trigger] nt.registry@[m].name@ != other by {
                    if m < k {
                        assert(nt.registry@[m] == old_t.registry@[m]);
                    }
                }
            }
        }
    }
}

/// Insert the class into the registry under its name and mark it
/// registered.  Afterwards it is what a lookup by its name finds.
pub fn objc_register_class_pair(rt: &mut Runtime, cls: ClassRef)
    requires
        old(rt).wf(),
        old(rt).classes.valid(cls),
    ensures
        final(rt).wf(),
        final(rt).sels == old(rt).sels,
        final(rt).loaded == old(rt).loaded,
        final(rt).classes.classes@.len() == old(rt).classes.classes@.len(),
        ({
            let o = old(rt).classes.classes@[cls.0 as int];
            let f = final(rt).classes.classes@[cls.0 as int];
            &&& f.info == o.info | CLASS_REGISTERED
            &&& f.isa == o.isa
            &&& f.super_class == o.super_class
            &&& f.name == o.name
            &&& f.version == o.version
            &&& f.instance_size == o.instance_size
            &&& f.method_list == o.method_list
            &&& f.dtable == o.dtable
            &&& f.subclass_list == o.subclass_list
            &&& f.sibling_class == o.sibling_class
            &&& f.abi_version == o.abi_version
        }),
        forall|k: int|
            0 <= k < old(rt).classes.classes@.len() && k != cls.0 ==> #[trigger] final(rt).classes.classes@[k]
                == old(rt).classes.classes@[k],
        final(rt).classes.registry_lookup(old(rt).classes.classes@[cls.0 as int].name@) == Some(cls),
        forall|other: Seq<char>|
            other != old(rt).classes.classes@[cls.0 as int].name@ ==> #[trigger] final(rt).classes.registry_lookup(other)
                == old(rt).classes.registry_lookup(other),
{
    register_class(rt, cls);
}

/// Register a class loaded from a compiled module: insert it into the
/// registry under its name and mark it registered.
pub fn register_loaded_class(rt: &mut Runtime, cls: ClassRef)
    requires
        old(rt).wf(),
        old(rt).classes.valid(cls),
    ensures
        final(rt).wf(),
        final(rt).sels == old(rt).sels,
        final(rt).loaded == old(rt).loaded,
        final(rt).classes.classes@.len() == old(rt).classes.classes@.len(),
        ({
            let o = old(rt).classes.classes@[cls.0 as int];
            let f = final(rt).classes.classes@[cls.0 as int];
            &&& f.info == o.info | CLASS_REGISTERED
            &&& f.isa == o.isa
            &&& f.super_class == o.super_class
            &&& f.name == o.name
            &&& f.version == o.version
            &&& f.instance_size == o.instance_size
            &&& f.method_list == o.method_list
            &&& f.dtable == o.dtable
            &&& f.subclass_list == o.subclass_list
            &&& f.sibling_class == o.sibling_class
            &&& f.abi_version == o.abi_version
        }),
        forall|k: int|
            0 <= k < old(rt).classes.classes@.len() && k != cls.0 ==> #[trigger] final(rt).classes.classes@[k]
                == old(rt).classes.classes@[k],
        final(rt).classes.registry_lookup(old(rt).classes.classes@[cls.0 as int].name@) == Some(cls),
        forall|other: Seq<char>|
            other != old(rt).classes.classes@[cls.0 as int].name@ ==> #[trigger] final(rt).classes.registry_lookup(other)
                == old(rt).classes.registry_lookup(other),
{
    register_class(rt, cls);
}

fn register_class(rt: &mut Runtime, cls: ClassRef)
    requires
        old(rt).wf(),
        old(rt).classes.valid(cls),
    ensures
        final(rt).wf(),
        final(rt).sels == old(rt).sels,
        final(rt).loaded == old(rt).loaded,
        final(rt).classes.classes@.len() == old(rt).classes.classes@.len(),
        ({
            let o = old(rt).classes.classes@[cls.0 as int];
            let f = final(rt).classes.classes@[cls.0 as int];
            &&& f.info == o.info | CLASS_REGISTERED
            &&& f.isa == o.isa
            &&& f.super_class == o.super_class
            &&& f.name == o.name
            &&& f.version == o.version
            &&& f.instance_size == o.instance_size
            &&& f.method_list == o.method_list
            &&& f.dtable == o.dtable
            &&& f.subclass_list == o.subclass_list
            &&& f.sibling_class == o.sibling_class
            &&& f.abi_version == o.abi_version
        }),
        forall|k: int|
            0 <= k < old(rt).classes.classes@.len() && k != cls.0 ==> #[trigger] final(rt).classes.classes@[k]
                == old(rt).classes.classes@[k],
        final(rt).classes.registry_lookup(old(rt).classes.classes@[cls.0 as int].name@) == Some(cls),
        forall|other: Seq<char>|
            other != old(rt).classes.classes@[cls.0 as int].name@ ==> #[trigger] final(rt).classes.registry_lookup(other)
                == old(rt).classes.registry_lookup(other),
{
    let ghost old_t = rt.classes;
    let name = rt.classes.classes[cls.0].name.clone();
    registry_insert(&mut rt.classes, name, cls);
    let ghost mid = rt.classes;
    rt.classes.classes[cls.0].info = rt.classes.classes[cls.0].info | CLASS_REGISTERED;
    proof {
        let t = rt.classes;
        assert forall|other: Seq<char>| other != name@ implies #[trigger] t.registry_lookup(other)
            == old_t.registry_lookup(other) by {
            assert(mid.registry_lookup(other) == old_t.registry_lookup(other));
        }
        assert forall|c: int| 0 <= c < t.classes@.len() implies #[trigger] t.links_ok(c) by {
            assert(mid.links_ok(c));
            if let Some(x) = t.classes@[c].subclass_list {
                assert(t.classes@[x.0 as int].super_class == mid.classes@[x.0 as int].super_class);
            }
            if let Some(y) = t.classes@[c].sibling_class {
                assert(t.classes@[y.0 as int].super_class == mid.classes@[y.0 as int].super_class);
            }
        }
        assert forall|c: int, i: int, j: int|
            0 <= c < t.classes@.len() && 0 <= i < t.classes@[c].method_list@.len() && 0 <= j
                < t.classes@[c].method_list@[i].entries@.len()
            implies #[trigger] t.classes@[c].method_list@[i].entries@[j].sel < rt.sels.num_sels() by {
            assert(t.classes@[c].method_list == old_t.classes@[c].method_list);
        }
        assert forall|c: int| 0 <= c < t.classes@.len() implies (#[trigger] t.classes@[c].dtable matches Some(m) ==> m.wf(
            rt.sels.num_sels(),
        )) by {
            assert(t.classes@[c].dtable == old_t.classes@[c].dtable);
        }
    }
}

/// Look up a registered class by name; `None` if no class is registered
/// under that name.
pub fn objc_get_class_str(t: &ClassTable, name: &str) -> (r: Class)
    requires
        t.wf(),
    ensures
        r == t.registry_lookup(name@),
{
    let key = name.to_owned();
    let mut i: usize = 0;
    while i < t.registry.len()
        invariant
            t.wf(),
            key@ == name@,
            i <= t.registry@.len(),
            t.registry_lookup(name@) == t.registry_lookup_from(name@, i as int),
        decreases t.registry@.len() - i,
    {
        if t.registry[i].name == key {
            return Some(t.registry[i].cls);
        }
        i = i + 1;
    }
    None
}

/// The first position at or after `j` in `es` of a method whose selector
/// has the name of `sel`.
pub open spec fn entries_find(sels: SelectorTable, es: Seq<MethodEntry>, sel: SEL, j: int) -> Option<int>
    decreases es.len() - j,
{
    if j < 0 || j >= es.len() {
        None
    } else if sels.key(es[j].sel) == sels.key(sel) {
        Some(j)
    } else {
        entries_find(sels, es, sel, j + 1)
    }
}

/// The first position, list by list from list `i` on, of a method whose
/// selector has the name of `sel`.
pub open spec fn chain_find(sels: SelectorTable, ls: Seq<MethodList>, sel: SEL, i: int) -> Option<(int, int)>
    decreases ls.len() - i,
{
    if i < 0 || i >= ls.len() {
        None
    } else {
        match entries_find(sels, ls[i].entries@, sel, 0) {
            Some(j) => Some((i, j)),
            None => chain_find(sels, ls, sel, i + 1),
        }
    }
}

/// The position in the method lists of class `c` of the method that a
/// lookup of `sel` in its own lists finds.
pub open spec fn own_method(rt: Runtime, c: ClassRef, sel: SEL) -> Option<(int, int)> {
    chain_find(rt.sels, rt.classes.classes@[c.0 as int].method_list@, sel, 0)
}

/// The position in its class's chain of the method list a method handle
/// names.  Handles count lists from the tail of the chain, so lists put at
/// the head later do not move them.
pub open spec fn list_slot(t: ClassTable, m: MethodRef) -> int {
    t.classes@[m.cls.0 as int].method_list@.len() - 1 - m.list
}

/// `m` designates position `p` of class `c`'s method lists.
pub open spec fn designates(t: ClassTable, m: MethodRef, c: ClassRef, p: (int, int)) -> bool {
    m.cls == c && list_slot(t, m) == p.0 && m.index as int == p.1
}

/// The method entry a method handle designates.
pub open spec fn method_at(t: ClassTable, m: MethodRef) -> MethodEntry {
    t.classes@[m.cls.0 as int].method_list@[list_slot(t, m)].entries@[m.index as int]
}

/// `m` designates a method entry of the table.
pub open spec fn method_valid(t: ClassTable, m: MethodRef) -> bool {
    &&& m.cls.0 < t.classes@.len()
    &&& m.list < t.classes@[m.cls.0 as int].method_list@.len()
    &&& m.index < t.classes@[m.cls.0 as int].method_list@[list_slot(t, m)].entries@.len()
}

/// A registered class lies in its own registered subclass tree.
pub proof fn in_registered_tree_witness(t: ClassTable, c: ClassRef)
    requires
        t.valid(c),
        exists|i: int| 0 <= i < t.registry@.len() && #[trigger] t.registry@[i].cls == c,
    ensures
        in_registered_tree(t, c.0 as int),
{
    let i = choose|i: int| 0 <= i < t.registry@.len() && #[trigger] t.registry@[i].cls == c;
    assert(subtree_has(tree_links(t), t.registry@[i].cls.0 as int, c.0 as int));
}

/// `b` has the shape of `a` and the same selectors in the same places
/// (implementations and type encodings may differ).
pub open spec fn lists_same_sels(a: Seq<MethodList>, b: Seq<MethodList>) -> bool {
    &&& a.len() == b.len()
    &&& forall|i: int| 0 <= i < a.len() ==> (#[trigger] a[i]).entries@.len() == b[i].entries@.len()
    &&& forall|i: int, j: int| 0 <= i < a.len() && 0 <= j < a[i].entries@.len() ==> #[trigger] a[i].entries@[j].sel == b[i].entries@[j].sel
}

/// Lists with the same selectors in the same places find the same
/// positions.
pub proof fn lemma_chain_find_same_sels(sels: SelectorTable, a: Seq<MethodList>, b: Seq<MethodList>, sel: SEL, i: int)
    requires
        lists_same_sels(a, b),
    ensures
        chain_find(sels, a, sel, i) == chain_find(sels, b, sel, i),
    decreases a.len() - i,
{
    if 0 <= i < a.len() {
        lemma_entries_find_same_sels(sels, a, b, i, sel, 0);
        lemma_chain_find_same_sels(sels, a, b, sel, i + 1);
    }
}

proof fn lemma_entries_find_same_sels(sels: SelectorTable, a: Seq<MethodList>, b: Seq<MethodList>, i: int, sel: SEL, j: int)
    requires
        lists_same_sels(a, b),
        0 <= i < a.len(),
    ensures
        entries_find(sels, a[i].entries@, sel, j) == entries_find(sels, b[i].entries@, sel, j),
    decreases a[i].entries@.len() - j,
{
    assert(a[i].entries@.len() == b[i].entries@.len());
    if 0 <= j < a[i].entries@.len() {
        assert(a[i].entries@[j].sel == b[i].entries@[j].sel);
        lemma_entries_find_same_sels(sels, a, b, i, sel, j + 1);
    }
}

/// Every selector in the lists is below `n`.
pub open spec fn lists_bounded(ls: Seq<MethodList>, n: nat) -> bool {
    forall|i: int, j: int| 0 <= i < ls.len() && 0 <= j < ls[i].entries@.len() ==> #[trigger] ls[i].entries@[j].sel < n
}

proof fn lemma_entries_find_first(sels: SelectorTable, es: Seq<MethodEntry>, sel: SEL, j: int)
    requires
        0 <= j,
    ensures
        entries_find(sels, es, sel, j) matches Some(k) ==> j <= k < es.len() && sels.key(es[k].sel) == sels.key(sel),
    decreases es.len() - j,
{
    if j < es.len() {
        lemma_entries_find_first(sels, es, sel, j + 1);
    }
}

pub proof fn lemma_chain_find_in_range(sels: SelectorTable, ls: Seq<MethodList>, sel: SEL, i: int)
    requires
        0 <= i,
    ensures
        chain_find(sels, ls, sel, i) matches Some((a, b)) ==> i <= a < ls.len() && 0 <= b < ls[a].entries@.len()
            && sels.key(ls[a].entries@[b].sel) == sels.key(sel),
    decreases ls.len() - i,
{
    if i < ls.len() {
        lemma_entries_find_first(sels, ls[i].entries@, sel, 0);
        lemma_chain_find_in_range(sels, ls, sel, i + 1);
    }
}

/// Finding a method depends only on the name of the selector looked for.
pub proof fn lemma_chain_find_by_name(sels: SelectorTable, ls: Seq<MethodList>, a: SEL, b: SEL, i: int)
    requires
        sels.key(a) == sels.key(b),
    ensures
        chain_find(sels, ls, a, i) == chain_find(sels, ls, b, i),
    decreases ls.len() - i,
{
    if 0 <= i < ls.len() {
        lemma_entries_find_by_name(sels, ls[i].entries@, a, b, 0);
        lemma_chain_find_by_name(sels, ls, a, b, i + 1);
    }
}

proof fn lemma_entries_find_by_name(sels: SelectorTable, es: Seq<MethodEntry>, a: SEL, b: SEL, j: int)
    requires
        sels.key(a) == sels.key(b),
    ensures
        entries_find(sels, es, a, j) == entries_find(sels, es, b, j),
    decreases es.len() - j,
{
    if 0 <= j < es.len() {
        lemma_entries_find_by_name(sels, es, a, b, j + 1);
    }
}

/// Two selector tables that agree on the names of the selectors involved
/// find the same methods.
pub proof fn lemma_chain_find_extends(s0: SelectorTable, s1: SelectorTable, ls: Seq<MethodList>, sel: SEL, i: int)
    requires
        s0.extends_to(&s1),
        sel < s0.num_sels(),
        lists_bounded(ls, s0.num_sels()),
    ensures
        chain_find(s0, ls, sel, i) == chain_find(s1, ls, sel, i),
    decreases ls.len() - i,
{
    if 0 <= i < ls.len() {
        lemma_entries_find_extends(s0, s1, ls[i].entries@, sel, 0, ls, i);
        lemma_chain_find_extends(s0, s1, ls, sel, i + 1);
    }
}

proof fn lemma_entries_find_extends(
    s0: SelectorTable,
    s1: SelectorTable,
    es: Seq<MethodEntry>,
    sel: SEL,
    j: int,
    ls: Seq<MethodList>,
    i: int,
)
    requires
        s0.extends_to(&s1),
        sel < s0.num_sels(),
        lists_bounded(ls, s0.num_sels()),
        0 <= i < ls.len(),
        es == ls[i].entries@,
    ensures
        entries_find(s0, es, sel, j) == entries_find(s1, es, sel, j),
    decreases es.len() - j,
{
    if 0 <= j < es.len() {
        assert(es[j].sel < s0.num_sels());
        assert(s1.sels@[es[j].sel as int] == s0.sels@[es[j].sel as int]);
        assert(s1.sels@[sel as int] == s0.sels@[sel as int]);
        lemma_entries_find_extends(s0, s1, es, sel, j + 1, ls, i);
    }
}

/// Search one method list for a selector of the name of `sel`.
fn find_in_list(sels: &SelectorTable, es: &Vec<MethodEntry>, sel: SEL) -> (r: Option<usize>)
    requires
        sels.wf(),
        sel < sels.num_sels(),
        forall|j: int| 0 <= j < es@.len() ==> #[trigger] es@[j].sel < sels.num_sels(),
    ensures
        r matches Some(j) ==> entries_find(*sels, es@, sel, 0) == Some(j as int),
        r is None ==> entries_find(*sels, es@, sel, 0) is None,
{
    let mut j: usize = 0;
    while j < es.len()
        invariant
            sels.wf(),
            sel < sels.num_sels(),
            forall|k: int| 0 <= k < es@.len() ==> #[trigger] es@[k].sel < sels.num_sels(),
            j <= es@.len(),
            entries_find(*sels, es@, sel, 0) == entries_find(*sels, es@, sel, j as int),
        decreases es@.len() - j,
    {
        if sel_eq(sels, es[j].sel, sel) {
            return Some(j);
        }
        j = j + 1;
    }
    None
}

/// The position of the first method with the name of `sel` in a chain of
/// method lists (list by list, head first), or `None`.
pub(crate) fn find_method_in_chain(sels: &SelectorTable, lists: &Vec<MethodList>, sel: SEL) -> (r: Option<(usize, usize)>)
    requires
        sels.wf(),
        sel < sels.num_sels(),
        lists_bounded(lists@, sels.num_sels()),
    ensures
        r matches Some((i, j)) ==> chain_find(*sels, lists@, sel, 0) == Some((i as int, j as int)),
        r is None ==> chain_find(*sels, lists@, sel, 0) is None,
{
    let mut i: usize = 0;
    while i < lists.len()
        invariant
            sels.wf(),
            sel < sels.num_sels(),
            lists_bounded(lists@, sels.num_sels()),
            i <= lists@.len(),
            chain_find(*sels, lists@, sel, 0) == chain_find(*sels, lists@, sel, i as int),
        decreases lists@.len() - i,
    {
        match find_in_list(sels, &lists[i].entries, sel) {
            Some(j) => {
                return Some((i, j));
            },
            None => {},
        }
        i = i + 1;
    }
    None
}

/// Whether a chain of method lists holds a method with the name of `sel`.
fn method_exists_in_chain(sels: &SelectorTable, lists: &Vec<MethodList>, sel: SEL) -> (r: bool)
    requires
        sels.wf(),
        sel < sels.num_sels(),
        lists_bounded(lists@, sels.num_sels()),
    ensures
        r == chain_find(*sels, lists@, sel, 0) is Some,
{
    find_method_in_chain(sels, lists, sel).is_some()
}

/// The method lists of class `c` are bounded by `n` when the table is.
pub(crate) proof fn lemma_class_lists_bounded(t: ClassTable, n: nat, c: int)
    requires
        t.bounded(n),
        0 <= c < t.classes@.len(),
    ensures
        lists_bounded(t.classes@[c].method_list@, n),
{
    assert forall|i: int, j: int|
        0 <= i < t.classes@[c].method_list@.len() && 0 <= j < t.classes@[c].method_list@[i].entries@.len()
        implies #[trigger] t.classes@[c].method_list@[i].entries@[j].sel < n by {
        assert(t.classes@[c].method_list@[i].entries@[j].sel < n);
    }
}

/// The method lists after adding method `e`: a registered class gets a new
/// single-method list at the head of its chain; otherwise the method is
/// appended to the head list, which is created if the class has none.
pub open spec fn lists_after_add(o: Seq<MethodList>, registered: bool, e: MethodEntry, f: Seq<MethodList>) -> bool {
    if registered {
        &&& f.len() == o.len() + 1
        &&& f[0].entries@ == seq![e]
        &&& forall|i: int| 0 <= i < o.len() ==> #[trigger] f[i + 1] == o[i]
    } else if o.len() == 0 {
        &&& f.len() == 1
        &&& f[0].entries@ == seq![e]
    } else {
        &&& f.len() == o.len()
        &&& f[0].entries@ == o[0].entries@.push(e)
        &&& forall|i: int| 1 <= i < o.len() ==> #[trigger] f[i] == o[i]
    }
}

/// After changing the method lists of `cls` (and nothing else), caches are
/// as the class's registration dictates: for a registered class, the
/// caches of `cls` and of its subclass tree are cleared; otherwise no
/// cache changes.
pub open spec fn caches_after_change(o: ClassTable, f: ClassTable, cls: ClassRef, flushed: bool) -> bool {
    &&& f.classes@.len() == o.classes@.len()
    &&& f.registry == o.registry
    &&& forall|d: int|
        0 <= d < o.classes@.len() ==> {
            let od = o.classes@[d];
            let fd = #[trigger] f.classes@[d];
            &&& fd.isa == od.isa
            &&& fd.super_class == od.super_class
            &&& fd.name == od.name
            &&& fd.version == od.version
            &&& fd.info == od.info
            &&& fd.instance_size == od.instance_size
            &&& (d != cls.0 ==> fd.method_list == od.method_list)
            &&& fd.subclass_list == od.subclass_list
            &&& fd.sibling_class == od.sibling_class
            &&& fd.abi_version == od.abi_version
            &&& (fd.dtable is Some <==> od.dtable is Some)
            &&& if flushed && subtree_has(tree_links(o), cls.0 as int, d) {
                fd.cache_empty()
            } else {
                fd.dtable == od.dtable
            }
        }
}

/// `mid` differs from `o` only in the method lists of `cls`.
pub open spec fn only_lists_changed(o: ClassTable, mid: ClassTable, cls: ClassRef) -> bool {
    &&& mid.classes@.len() == o.classes@.len()
    &&& mid.registry == o.registry
    &&& forall|d: int|
        0 <= d < o.classes@.len() ==> {
            let od = o.classes@[d];
            let md = #[trigger] mid.classes@[d];
            &&& md.isa == od.isa
            &&& md.super_class == od.super_class
            &&& md.name == od.name
            &&& md.version == od.version
            &&& md.info == od.info
            &&& md.instance_size == od.instance_size
            &&& (d != cls.0 ==> md.method_list == od.method_list)
            &&& md.dtable == od.dtable
            &&& md.subclass_list == od.subclass_list
            &&& md.sibling_class == od.sibling_class
            &&& md.abi_version == od.abi_version
        }
}

proof fn lemma_caches_after_change(o: ClassTable, mid: ClassTable, f: ClassTable, cls: ClassRef, flushed: bool)
    requires
        only_lists_changed(o, mid, cls),
        flushed ==> {
            &&& mid.same_but_caches(&f)
            &&& forall|d: int|
                0 <= d < mid.classes@.len() && subtree_has(tree_links(mid), cls.0 as int, d)
                    ==> (#[trigger] f.classes@[d]).cache_empty()
            &&& forall|d: int|
                0 <= d < mid.classes@.len() && !subtree_has(tree_links(mid), cls.0 as int, d)
                    ==> #[trigger] f.classes@[d] == mid.classes@[d]
        },
        !flushed ==> f == mid,
    ensures
        caches_after_change(o, f, cls, flushed),
{
    assert(tree_links(mid) =~= tree_links(o)) by {
        assert forall|k: int| 0 <= k < o.classes@.len() implies tree_links(mid)[k] == tree_links(o)[k] by {
            assert(mid.classes@[k].subclass_list == o.classes@[k].subclass_list);
            assert(mid.classes@[k].sibling_class == o.classes@[k].sibling_class);
        }
    }
    assert forall|d: int| 0 <= d < o.classes@.len() implies {
        let od = o.classes@[d];
        let fd = #[trigger] f.classes@[d];
        &&& fd.isa == od.isa
        &&& fd.super_class == od.super_class
        &&& fd.name == od.name
        &&& fd.version == od.version
        &&& fd.info == od.info
        &&& fd.instance_size == od.instance_size
        &&& (d != cls.0 ==> fd.method_list == od.method_list)
        &&& fd.subclass_list == od.subclass_list
        &&& fd.sibling_class == od.sibling_class
        &&& fd.abi_version == od.abi_version
        &&& (fd.dtable is Some <==> od.dtable is Some)
        &&& if flushed && subtree_has(tree_links(o), cls.0 as int, d) {
            fd.cache_empty()
        } else {
            fd.dtable == od.dtable
        }
    } by {
        let md = mid.classes@[d];
        if flushed {
            assert(md.same_but_cache(&f.classes@[d]));
        }
    }
}

/// Add a method to a class.  Returns `false`, changing nothing, when the
/// class's own method lists already hold a method of that selector name.
///
/// Before registration the method is appended to the head method list;
/// after registration a new single-method list is put at the head of the
/// chain and the caches of the class and its subclass tree are cleared.
pub fn class_add_method(rt: &mut Runtime, cls: ClassRef, sel: SEL, imp: IMP, types: usize) -> (r: bool)
    requires
        old(rt).wf(),
        old(rt).classes.valid(cls),
        sel < old(rt).sels.num_sels(),
    ensures
        final(rt).wf(),
        final(rt).sels == old(rt).sels,
        final(rt).loaded == old(rt).loaded,
        r == (own_method(*old(rt), cls, sel) is None),
        !r ==> *final(rt) == *old(rt),
        r ==> {
            let registered = is_registered(old(rt).classes.classes@[cls.0 as int].info);
            &&& lists_after_add(
                old(rt).classes.classes@[cls.0 as int].method_list@,
                registered,
                MethodEntry { imp, sel, types },
                final(rt).classes.classes@[cls.0 as int].method_list@,
            )
            &&& caches_after_change(old(rt).classes, final(rt).classes, cls, registered)
        },
        forall|m: MethodRef| #[trigger] method_valid(old(rt).classes, m) ==> method_valid(final(rt).classes, m)
            && method_at(final(rt).classes, m) == method_at(old(rt).classes, m),
{
    let ghost old_rt = *rt;
    let c = cls.0;
    proof {
        lemma_class_lists_bounded(rt.classes, rt.sels.num_sels(), c as int);
    }
    if method_exists_in_chain(&rt.sels, &rt.classes.classes[c].method_list, sel) {
        return false;
    }
    let registered = rt.classes.classes[c].info & CLASS_REGISTERED != 0;
    let e = MethodEntry { imp, sel, types };
    if registered {
        let mut entries = Vec::new();
        entries.push(e);
        rt.classes.classes[c].method_list.insert(0, MethodList { entries });
    } else if rt.classes.classes[c].method_list.len() == 0 {
        let mut entries = Vec::new();
        entries.push(e);
        rt.classes.classes[c].method_list.push(MethodList { entries });
    } else {
        rt.classes.classes[c].method_list[0].entries.push(e);
    }
    let ghost mid = rt.classes;
    proof {
        let o = old_rt.classes;
        let ol = o.classes@[c as int].method_list@;
        let fl = mid.classes@[c as int].method_list@;
        if registered {
            assert forall|i: int| 0 <= i < ol.len() implies #[trigger] fl[i + 1] == ol[i] by {}
        } else if ol.len() != 0 {
            assert forall|i: int| 1 <= i < ol.len() implies #[trigger] fl[i] == ol[i] by {}
        }
        assert forall|k: int| 0 <= k < mid.classes@.len() implies #[trigger] mid.links_ok(k) by {
            assert(o.links_ok(k));
            if let Some(y) = mid.classes@[k].subclass_list {
                assert(mid.classes@[y.0 as int].super_class == o.classes@[y.0 as int].super_class);
            }
            if let Some(y) = mid.classes@[k].sibling_class {
                assert(mid.classes@[y.0 as int].super_class == o.classes@[y.0 as int].super_class);
            }
        }
        assert(mid.registry_ok());
        assert forall|k: int, i: int, j: int|
            0 <= k < mid.classes@.len() && 0 <= i < mid.classes@[k].method_list@.len() && 0 <= j
                < mid.classes@[k].method_list@[i].entries@.len()
            implies #[trigger] mid.classes@[k].method_list@[i].entries@[j].sel < rt.sels.num_sels() by {
            if k == c {
                if registered {
                    if i > 0 {
                        assert(fl[i] == ol[i - 1]);
                        assert(o.classes@[k].method_list@[i - 1].entries@[j].sel < rt.sels.num_sels());
                    }
                } else if ol.len() != 0 {
                    if i > 0 {
                        assert(fl[i] == ol[i]);
                        assert(o.classes@[k].method_list@[i].entries@[j].sel < rt.sels.num_sels());
                    } else if j < ol[0].entries@.len() {
                        assert(o.classes@[k].method_list@[0].entries@[j].sel < rt.sels.num_sels());
                    }
                }
            } else {
                assert(mid.classes@[k] == o.classes@[k]);
            }
        }
        assert forall|k: int| 0 <= k < mid.classes@.len() implies (#[trigger] mid.classes@[k].dtable matches Some(m) ==> m.wf(
            rt.sels.num_sels(),
        )) by {
            assert(mid.classes@[k].dtable == o.classes@[k].dtable);
        }
        assert(tree_links(mid) =~= tree_links(o)) by {
            assert forall|k: int| 0 <= k < o.classes@.len() implies tree_links(mid)[k] == tree_links(o)[k] by {}
        }
    }
    proof {
        assert(only_lists_changed(old_rt.classes, mid, cls));
    }
    if registered {
        flush_class_cache_tree(&mut rt.classes, cls);
        proof {
            lemma_flushed_keeps_wf(mid, rt.classes, rt.sels.num_sels());
            assert(mid.classes@[c as int].same_but_cache(&rt.classes.classes@[c as int]));
        }
    }
    proof {
        lemma_caches_after_change(old_rt.classes, mid, rt.classes, cls, registered);
        assert(rt.classes.classes@[c as int].method_list == mid.classes@[c as int].method_list);
        lemma_handles_kept_by_add(old_rt.classes, rt.classes, cls, registered, e);
    }
    true
}

/// Adding a method moves no method handle: lists put at the head of the
/// chain are not counted by handles, and a method appended to the head
/// list comes after the ones there.
proof fn lemma_handles_kept_by_add(o: ClassTable, f: ClassTable, cls: ClassRef, registered: bool, e: MethodEntry)
    requires
        o.valid(cls),
        lists_after_add(o.classes@[cls.0 as int].method_list@, registered, e, f.classes@[cls.0 as int].method_list@),
        caches_after_change(o, f, cls, registered),
    ensures
        forall|m: MethodRef| #[trigger] method_valid(o, m) ==> method_valid(f, m) && method_at(f, m) == method_at(o, m),
{
    assert forall|m: MethodRef| #[trigger] method_valid(o, m) implies method_valid(f, m) && method_at(f, m) == method_at(o, m) by {
        let k = m.cls.0 as int;
        if k != cls.0 {
            assert(f.classes@[k].method_list == o.classes@[k].method_list);
        } else {
            let ol = o.classes@[k].method_list@;
            let fl = f.classes@[k].method_list@;
            let i = list_slot(o, m);
            if registered {
                assert(fl[i + 1] == ol[i]);
            } else if i != 0 {
                assert(fl[i] == ol[i]);
            }
        }
    }
}

/// Replace the implementation of the class's own method of that selector
/// name and return the previous one; if the class has no such method, add
/// it (as `class_add_method` does) and return `None`.  Replacing clears the
/// caches of the class and its subclass tree.
pub fn class_replace_method(rt: &mut Runtime, cls: ClassRef, sel: SEL, imp: IMP, types: usize) -> (r: Option<IMP>)
    requires
        old(rt).wf(),
        old(rt).classes.valid(cls),
        sel < old(rt).sels.num_sels(),
    ensures
        final(rt).wf(),
        final(rt).sels == old(rt).sels,
        final(rt).loaded == old(rt).loaded,
        match own_method(*old(rt), cls, sel) {
            Some((a, b)) => {
                let ol = old(rt).classes.classes@[cls.0 as int].method_list@;
                let fl = final(rt).classes.classes@[cls.0 as int].method_list@;
                let e = ol[a].entries@[b];
                &&& r == Some(e.imp)
                &&& fl.len() == ol.len()
                &&& fl[a].entries@ == ol[a].entries@.update(b, MethodEntry { imp, sel: e.sel, types: e.types })
                &&& forall|i: int| 0 <= i < ol.len() && i != a ==> #[trigger] fl[i] == ol[i]
                &&& caches_after_change(old(rt).classes, final(rt).classes, cls, true)
            },
            None => {
                let registered = is_registered(old(rt).classes.classes@[cls.0 as int].info);
                &&& r is None
                &&& lists_after_add(
                    old(rt).classes.classes@[cls.0 as int].method_list@,
                    registered,
                    MethodEntry { imp, sel, types },
                    final(rt).classes.classes@[cls.0 as int].method_list@,
                )
                &&& caches_after_change(old(rt).classes, final(rt).classes, cls, registered)
            },
        },
        forall|m: MethodRef| #[trigger] method_valid(old(rt).classes, m) ==> method_valid(final(rt).classes, m)
            && method_at(final(rt).classes, m) == (match own_method(*old(rt), cls, sel) {
                Some(p) => if designates(old(rt).classes, m, cls, p) {
                    (MethodEntry { imp, ..method_at(old(rt).classes, m) })
                } else {
                    method_at(old(rt).classes, m)
                },
                None => method_at(old(rt).classes, m),
            }),
{
    let ghost old_rt = *rt;
    let c = cls.0;
    proof {
        lemma_class_lists_bounded(rt.classes, rt.sels.num_sels(), c as int);
    }
    match find_method_in_chain(&rt.sels, &rt.classes.classes[c].method_list, sel) {
        Some((i, j)) => {
            proof {
                lemma_chain_find_in_range(rt.sels, rt.classes.classes@[c as int].method_list@, sel, 0);
            }
            let old_imp = rt.classes.classes[c].method_list[i].entries[j].imp;
            rt.classes.classes[c].method_list[i].entries[j].imp = imp;
            let ghost mid = rt.classes;
            proof {
                let o = old_rt.classes;
                let ol = o.classes@[c as int].method_list@;
                let fl = mid.classes@[c as int].method_list@;
                assert forall|k: int| 0 <= k < mid.classes@.len() implies #[trigger] mid.links_ok(k) by {
                    assert(o.links_ok(k));
                    if let Some(y) = mid.classes@[k].subclass_list {
                        assert(mid.classes@[y.0 as int].super_class == o.classes@[y.0 as int].super_class);
                    }
                    if let Some(y) = mid.classes@[k].sibling_class {
                        assert(mid.classes@[y.0 as int].super_class == o.classes@[y.0 as int].super_class);
                    }
                }
                assert(mid.registry_ok());
                assert forall|k: int, a: int, b: int|
                    0 <= k < mid.classes@.len() && 0 <= a < mid.classes@[k].method_list@.len() && 0 <= b
                        < mid.classes@[k].method_list@[a].entries@.len()
                    implies #[trigger] mid.classes@[k].method_list@[a].entries@[b].sel < rt.sels.num_sels() by {
                    assert(o.classes@[k].method_list@[a].entries@[b].sel < rt.sels.num_sels());
                }
                assert forall|k: int| 0 <= k < mid.classes@.len() implies (#[trigger] mid.classes@[k].dtable matches Some(
                    m,
                ) ==> m.wf(rt.sels.num_sels())) by {
                    assert(mid.classes@[k].dtable == o.classes@[k].dtable);
                }
                assert(tree_links(mid) =~= tree_links(o)) by {
                    assert forall|k: int| 0 <= k < o.classes@.len() implies tree_links(mid)[k] == tree_links(o)[k] by {}
                }
                assert forall|a: int| 0 <= a < ol.len() && a != i implies #[trigger] fl[a] == ol[a] by {}
                assert(fl[i as int].entries@ =~= ol[i as int].entries@.update(
                    j as int,
                    MethodEntry { imp, sel: ol[i as int].entries@[j as int].sel, types: ol[i as int].entries@[j as int].types },
                ));
            }
            proof {
                assert(only_lists_changed(old_rt.classes, mid, cls));
            }
            flush_class_cache_tree(&mut rt.classes, cls);
            proof {
                lemma_flushed_keeps_wf(mid, rt.classes, rt.sels.num_sels());
                lemma_caches_after_change(old_rt.classes, mid, rt.classes, cls, true);
                assert(mid.classes@[c as int].same_but_cache(&rt.classes.classes@[c as int]));
                let o = old_rt.classes;
                let f = rt.classes;
                assert forall|m: MethodRef| #[trigger] method_valid(o, m) implies method_valid(f, m)
                    && method_at(f, m) == (if designates(o, m, cls, (i as int, j as int)) {
                        (MethodEntry { imp, ..method_at(o, m) })
                    } else {
                        method_at(o, m)
                    }) by {
                    let k = m.cls.0 as int;
                    if k != c {
                        assert(f.classes@[k].method_list == o.classes@[k].method_list);
                    } else {
                        let ol = o.classes@[k].method_list@;
                        let fl = f.classes@[k].method_list@;
                        let a = list_slot(o, m);
                        if a != i {
                            assert(fl[a] == ol[a]);
                        }
                    }
                }
            }
            Some(old_imp)
        },
        None => {
            class_add_method(rt, cls, sel, imp, types);
            None
        },
    }
}

/// The class's own method of the selector name of `sel` (superclasses are
/// not searched); `None` for a `None` class or when there is none.
pub fn class_get_instance_method(rt: &Runtime, cls: Class, sel: SEL) -> (r: Option<MethodRef>)
    requires
        rt.wf(),
        rt.classes.valid_opt(cls),
        sel < rt.sels.num_sels(),
    ensures
        r is None <==> (cls is None || own_method(*rt, cls->0, sel) is None),
        r matches Some(m) ==> cls == Some(m.cls) && (own_method(*rt, m.cls, sel) matches Some(p) && designates(rt.classes, m, m.cls, p)),
        r matches Some(m) ==> method_valid(rt.classes, m),
{
    match cls {
        None => None,
        Some(c) => {
            proof {
                lemma_class_lists_bounded(rt.classes, rt.sels.num_sels(), c.0 as int);
                lemma_chain_find_in_range(rt.sels, rt.classes.classes@[c.0 as int].method_list@, sel, 0);
            }
            match find_method_in_chain(&rt.sels, &rt.classes.classes[c.0].method_list, sel) {
                Some((i, j)) => Some(MethodRef { cls: c, list: rt.classes.classes[c.0].method_list.len() - 1 - i, index: j }),
                None => None,
            }
        },
    }
}

/// The implementation of a method.
pub fn method_get_implementation(t: &ClassTable, m: MethodRef) -> (r: IMP)
    requires
        method_valid(*t, m),
    ensures
        r == method_at(*t, m).imp,
{
    let lists = &t.classes[m.cls.0].method_list;
    lists[lists.len() - 1 - m.list].entries[m.index].imp
}

/// Swap the implementations of two methods, then clear the caches of every
/// registered class and of their subclass trees.
pub fn method_exchange_implementations(rt: &mut Runtime, m1: MethodRef, m2: MethodRef)
    requires
        old(rt).wf(),
        method_valid(old(rt).classes, m1),
        method_valid(old(rt).classes, m2),
    ensures
        final(rt).wf(),
        final(rt).sels == old(rt).sels,
        final(rt).loaded == old(rt).loaded,
        final(rt).classes.classes@.len() == old(rt).classes.classes@.len(),
        final(rt).classes.registry == old(rt).classes.registry,
        method_at(final(rt).classes, m1) == (MethodEntry { imp: method_at(old(rt).classes, m2).imp, ..method_at(old(rt).classes, m1) }),
        method_at(final(rt).classes, m2) == (MethodEntry { imp: method_at(old(rt).classes, m1).imp, ..method_at(old(rt).classes, m2) }),
        forall|m: MethodRef| method_valid(old(rt).classes, m) && m != m1 && m != m2 ==> #[trigger] method_at(final(rt).classes, m) == method_at(old(rt).classes, m),
        forall|m: MethodRef| #[trigger] method_valid(final(rt).classes, m) == method_valid(old(rt).classes, m),
        forall|d: int|
            0 <= d < old(rt).classes.classes@.len() ==> {
                let od = old(rt).classes.classes@[d];
                let fd = #[trigger] final(rt).classes.classes@[d];
                &&& fd.isa == od.isa
                &&& fd.super_class == od.super_class
                &&& fd.name == od.name
                &&& fd.info == od.info
                &&& fd.instance_size == od.instance_size
                &&& fd.subclass_list == od.subclass_list
                &&& fd.sibling_class == od.sibling_class
                &&& lists_same_sels(od.method_list@, fd.method_list@)
                &&& (d != m1.cls.0 && d != m2.cls.0 ==> fd.method_list == od.method_list)
                &&& (fd.dtable is Some <==> od.dtable is Some)
                &&& if in_registered_tree(old(rt).classes, d) {
                    fd.cache_empty()
                } else {
                    fd.dtable == od.dtable
                }
            },
{
    let ghost o = rt.classes;
    let s1 = rt.classes.classes[m1.cls.0].method_list.len() - 1 - m1.list;
    let s2 = rt.classes.classes[m2.cls.0].method_list.len() - 1 - m2.list;
    let imp1 = rt.classes.classes[m1.cls.0].method_list[s1].entries[m1.index].imp;
    let imp2 = rt.classes.classes[m2.cls.0].method_list[s2].entries[m2.index].imp;
    rt.classes.classes[m1.cls.0].method_list[s1].entries[m1.index].imp = imp2;
    rt.classes.classes[m2.cls.0].method_list[s2].entries[m2.index].imp = imp1;
    let ghost mid = rt.classes;
    proof {
        assert forall|k: int| 0 <= k < mid.classes@.len() implies #[trigger] mid.links_ok(k) by {
            assert(o.links_ok(k));
            if let Some(y) = mid.classes@[k].subclass_list {
                assert(mid.classes@[y.0 as int].super_class == o.classes@[y.0 as int].super_class);
            }
            if let Some(y) = mid.classes@[k].sibling_class {
                assert(mid.classes@[y.0 as int].super_class == o.classes@[y.0 as int].super_class);
            }
        }
        assert(mid.registry_ok());
        assert forall|k: int, a: int, b: int|
            0 <= k < mid.classes@.len() && 0 <= a < mid.classes@[k].method_list@.len() && 0 <= b
                < mid.classes@[k].method_list@[a].entries@.len()
            implies #[trigger] mid.classes@[k].method_list@[a].entries@[b].sel < rt.sels.num_sels() by {
            assert(o.classes@[k].method_list@[a].entries@[b].sel < rt.sels.num_sels());
        }
        assert forall|k: int| 0 <= k < mid.classes@.len() implies (#[trigger] mid.classes@[k].dtable matches Some(m) ==> m.wf(
            rt.sels.num_sels(),
        )) by {
            assert(mid.classes@[k].dtable == o.classes@[k].dtable);
        }
        assert(tree_links(mid) =~= tree_links(o)) by {
            assert forall|k: int| 0 <= k < o.classes@.len() implies tree_links(mid)[k] == tree_links(o)[k] by {}
        }
    }
    flush_all_caches(&mut rt.classes);
    proof {
        let f = rt.classes;
        lemma_flushed_keeps_wf(mid, f, rt.sels.num_sels());
        assert forall|m: MethodRef| #[trigger] method_valid(f, m) == method_valid(o, m) by {
            if m.cls.0 < o.classes@.len() {
                assert(mid.classes@[m.cls.0 as int].same_but_cache(&f.classes@[m.cls.0 as int]));
            }
        }
        assert forall|m: MethodRef| method_valid(o, m) && m != m1 && m != m2 implies #[trigger] method_at(f, m) == method_at(o, m) by {
            assert(mid.classes@[m.cls.0 as int].same_but_cache(&f.classes@[m.cls.0 as int]));
        }
        assert(mid.classes@[m1.cls.0 as int].same_but_cache(&f.classes@[m1.cls.0 as int]));
        assert(mid.classes@[m2.cls.0 as int].same_but_cache(&f.classes@[m2.cls.0 as int]));
        assert forall|d: int| 0 <= d < o.classes@.len() implies {
            let od = o.classes@[d];
            let fd = #[trigger] f.classes@[d];
            &&& fd.isa == od.isa
            &&& fd.super_class == od.super_class
            &&& fd.name == od.name
            &&& fd.info == od.info
            &&& fd.instance_size == od.instance_size
            &&& fd.subclass_list == od.subclass_list
            &&& fd.sibling_class == od.sibling_class
            &&& lists_same_sels(od.method_list@, fd.method_list@)
            &&& (d != m1.cls.0 && d != m2.cls.0 ==> fd.method_list == od.method_list)
            &&& (fd.dtable is Some <==> od.dtable is Some)
            &&& if in_registered_tree(o, d) {
                fd.cache_empty()
            } else {
                fd.dtable == od.dtable
            }
        } by {
            assert(mid.classes@[d].same_but_cache(&f.classes@[d]));
            let ol = o.classes@[d].method_list@;
            let fl = f.classes@[d].method_list@;
            assert forall|i: int| 0 <= i < ol.len() implies (#[trigger] ol[i]).entries@.len() == fl[i].entries@.len() by {}
            assert forall|i: int, j: int| 0 <= i < ol.len() && 0 <= j < ol[i].entries@.len() implies #[trigger] ol[i].entries@[j].sel == fl[i].entries@[j].sel by {}
            assert(in_registered_tree(o, d) == in_registered_tree(mid, d));
            if d != m1.cls.0 && d != m2.cls.0 {
                assert(mid.classes@[d] == o.classes@[d]);
            }
        }
    }
}

} // verus!
