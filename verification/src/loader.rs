//! Loading compiled modules: selector fix-up, method-list conversion and
//! the class fix-ups that make compiled classes dispatchable.
//!
//! A compiled module lists selectors `{ name, types }` and class pairs.
//! Every selector name is interned and each compiled selector becomes a
//! typed selector.  Each class and its metaclass get their instance sizes
//! patched (compilers emit negative sizes), their method lists converted,
//! empty caches, and their metaclass links fixed: a root class's metaclass
//! is its own metaclass and has the root class as superclass; any other
//! metaclass has the superclass's metaclass as superclass and the root
//! metaclass of its hierarchy as metaclass.  Classes are threaded into
//! their superclass's subclass list (the root metaclass is not threaded
//! under the root class) and registered.
//!
//! Superclasses are named by the address of their compiled record.  The
//! caller hands over the records of all superclasses not loaded yet (the
//! linker has resolved the pointers to them, whichever module they belong
//! to), so every class of a module is loaded by the call that loads the
//! module, whatever the order of modules and of classes within them.
use vstd::prelude::*;

use crate::class_registry::{lemma_sibling_chain_decreasing, lists_bounded, register_loaded_class, sibling_chain, ClassTable, Runtime};
use crate::method_cache::{opt_rank, MethodCache};
use crate::sel::{add_typed_selector, SelectorTable};
use crate::types::{Class, ClassRef, MethodEntry, MethodList, ObjcClass, CLASS_REGISTERED, OBJECT_HEADER_SIZE, SEL};

verus! {

/// A compiled selector: its name (absent for the section's terminator) and
/// type encoding.
pub struct CompiledSelector {
    pub name: Option<String>,
    pub types: Option<String>,
}

/// Where a compiled class's superclass is: an already loaded class, the
/// class at a position of the same module, or the compiled class record at
/// an address (in the same module or one loaded before or after it).
#[derive(Clone, Copy, Debug, PartialEq, Eq, Structural)]
pub enum ClassSource {
    Loaded(ClassRef),
    Module(usize),
    Address(usize),
}

/// The parts of a compiled class record (or of its metaclass) that loading
/// reads.
pub struct CompiledClassData {
    pub version: i64,
    pub info: u64,
    pub instance_size: i64,
    pub abi_version: i64,
    /// The compiled method list's entries (empty for a null list).
    pub methods: Vec<MethodEntry>,
}

/// A compiled class pair.
pub struct CompiledClass {
    /// The address of the compiled record, by which other records name it
    /// as their superclass.
    pub addr: usize,
    pub name: String,
    pub super_class: Option<ClassSource>,
    pub cls: CompiledClassData,
    pub meta: CompiledClassData,
}

/// The number of entries before position `i` that have a name.
pub open spec fn named_count(entries: Seq<CompiledSelector>, i: int) -> int
    decreases i,
{
    if i <= 0 {
        0
    } else {
        named_count(entries, i - 1) + if entries[i - 1].name is Some {
            1int
        } else {
            0int
        }
    }
}

proof fn lemma_named_count_nonneg(entries: Seq<CompiledSelector>, k: int)
    ensures
        0 <= named_count(entries, k),
    decreases k,
{
    if k > 0 {
        lemma_named_count_nonneg(entries, k - 1);
    }
}

proof fn lemma_named_count_mono(entries: Seq<CompiledSelector>, k: int, i: int)
    requires
        0 <= k < i,
    ensures
        0 <= named_count(entries, k),
        named_count(entries, k) + (if entries[k].name is Some {
            1int
        } else {
            0int
        }) <= named_count(entries, i),
    decreases i,
{
    lemma_named_count_nonneg(entries, k);
    if k < i - 1 {
        lemma_named_count_mono(entries, k, i - 1);
    }
}

/// Intern the names of a module's selectors and make each a typed
/// selector; return the selector made for each entry (`None` for an entry
/// without a name).  The selectors are numbered in the order of the
/// entries, after those already in the table.
pub fn load_selectors(sels: &mut SelectorTable, entries: &Vec<CompiledSelector>) -> (r: Vec<Option<SEL>>)
    requires
        old(sels).wf(),
        forall|i: int| 0 <= i < entries@.len() ==> ((#[trigger] entries@[i]).name matches Some(n) ==> !n@.contains('\0')),
    ensures
        final(sels).wf(),
        old(sels).extends_to(final(sels)),
        final(sels).sel_map() == old(sels).sel_map(),
        final(sels).num_sels() == old(sels).num_sels() + named_count(entries@, entries@.len() as int),
        r@.len() == entries@.len(),
        forall|i: int|
            0 <= i < entries@.len() ==> match (#[trigger] entries@[i]).name {
                None => r@[i] is None,
                Some(n) => r@[i] matches Some(s) && s == old(sels).num_sels() + named_count(entries@, i)
                    && final(sels).sel_name(s) == n@ && final(sels).sels@[s as int].types == entries@[i].types,
            },
{
    let ghost s0 = *sels;
    let mut r: Vec<Option<SEL>> = Vec::new();
    let mut i: usize = 0;
    while i < entries.len()
        invariant
            sels.wf(),
            s0.extends_to(sels),
            sels.sel_map() == s0.sel_map(),
            i <= entries@.len(),
            r@.len() == i,
            sels.num_sels() == s0.num_sels() + named_count(entries@, i as int),
            forall|k: int| 0 <= k < entries@.len() ==> ((#[trigger] entries@[k]).name matches Some(n) ==> !n@.contains('\0')),
            forall|k: int|
                0 <= k < i ==> match (#[trigger] entries@[k]).name {
                    None => r@[k] is None,
                    Some(n) => r@[k] matches Some(s) && s == s0.num_sels() + named_count(entries@, k)
                        && sels.sel_name(s) == n@ && sels.sels@[s as int].types == entries@[k].types,
                },
        decreases entries@.len() - i,
    {
        let e = &entries[i];
        match &e.name {
            None => {
                r.push(None);
            },
            Some(n) => {
                let ghost before = *sels;
                let types = match &e.types {
                    Some(t) => Some(t.clone()),
                    None => None,
                };
                let s = add_typed_selector(sels, n.as_str(), types);
                r.push(Some(s));
                proof {
                    assert forall|k: int| 0 <= k < i implies match (#[trigger] entries@[k]).name {
                        None => r@[k] is None,
                        Some(n) => r@[k] matches Some(s) && s == s0.num_sels() + named_count(entries@, k)
                            && sels.sel_name(s) == n@ && sels.sels@[s as int].types == entries@[k].types,
                    } by {
                        if let Some(x) = r@[k] {
                            lemma_named_count_mono(entries@, k, i as int);
                            assert(sels.sels@[x as int] == before.sels@[x as int]);
                            assert(before.key(x) < before.names@.len());
                        }
                    }
                }
            },
        }
        i = i + 1;
    }
    r
}

/// Convert a compiled method list to a method list: `None` for an empty
/// (or null) list.
pub fn convert_method_list(entries: &Vec<MethodEntry>) -> (r: Option<MethodList>)
    ensures
        entries@.len() == 0 ==> r is None,
        entries@.len() != 0 ==> (r matches Some(l) && l.entries@ == entries@),
{
    if entries.len() == 0 {
        return None;
    }
    let mut out: Vec<MethodEntry> = Vec::new();
    let mut i: usize = 0;
    while i < entries.len()
        invariant
            i <= entries@.len(),
            out@ == entries@.take(i as int),
        decreases entries@.len() - i,
    {
        out.push(entries[i]);
        proof {
            assert(entries@.take(i + 1) =~= entries@.take(i as int).push(entries@[i as int]));
        }
        i = i + 1;
    }
    proof {
        assert(entries@.take(entries@.len() as int) =~= entries@);
    }
    Some(MethodList { entries: out })
}

/// The root of the superclass chain of class `c`.
pub open spec fn root_of(t: ClassTable, c: int) -> int
    decreases c,
{
    if 0 <= c < t.classes@.len() {
        match t.classes@[c].super_class {
            Some(s) => if s.0 < c {
                root_of(t, s.0 as int)
            } else {
                c
            },
            None => c,
        }
    } else {
        c
    }
}

proof fn lemma_root_of_valid(t: ClassTable, c: int)
    requires
        t.wf(),
        0 <= c < t.classes@.len(),
    ensures
        0 <= root_of(t, c) <= c,
    decreases c,
{
    assert(t.links_ok(c));
    if let Some(s) = t.classes@[c].super_class {
        lemma_root_of_valid(t, s.0 as int);
    }
}

/// A compiled instance size made positive (compilers emit it negated).
pub open spec fn patched_size(size: i64) -> i64 {
    if size < 0 {
        (-size) as i64
    } else {
        size
    }
}

/// A compiled class's instance size after loading: made positive, and an
/// object header for a root class that declares none.
pub open spec fn patched_class_size(size: i64, is_root: bool) -> i64 {
    if patched_size(size) == 0 && is_root {
        OBJECT_HEADER_SIZE
    } else {
        patched_size(size)
    }
}

/// The method-list chain a compiled list converts to.
pub open spec fn converted_lists(entries: Seq<MethodEntry>, lists: Seq<MethodList>) -> bool {
    if entries.len() == 0 {
        lists.len() == 0
    } else {
        lists.len() == 1 && lists[0].entries@ == entries
    }
}

/// The root of the superclass chain of `c`.
fn find_root(t: &ClassTable, c: ClassRef) -> (r: ClassRef)
    requires
        t.wf(),
        t.valid(c),
    ensures
        r.0 == root_of(*t, c.0 as int),
        t.valid(r),
{
    let mut cur = c;
    loop
        invariant
            t.wf(),
            t.valid(cur),
            root_of(*t, c.0 as int) == root_of(*t, cur.0 as int),
        decreases cur.0,
    {
        proof {
            assert(t.links_ok(cur.0 as int));
        }
        match t.classes[cur.0].super_class {
            None => {
                return cur;
            },
            Some(s) => {
                cur = s;
            },
        }
    }
}

/// Build the record of a loaded class or metaclass.
fn loaded_record(
    data: &CompiledClassData,
    name: &String,
    isa: Class,
    super_class: Class,
    instance_size: i64,
    sibling: Class,
) -> (r: ObjcClass)
    ensures
        r.isa == isa,
        r.super_class == super_class,
        r.name@ == name@,
        r.version == data.version,
        r.info == data.info,
        r.instance_size == instance_size,
        converted_lists(data.methods@, r.method_list@),
        r.dtable matches Some(m) && m.entries@.len() == 0,
        r.subclass_list is None,
        r.sibling_class == sibling,
        r.abi_version == data.abi_version,
{
    let mut lists: Vec<MethodList> = Vec::new();
    match convert_method_list(&data.methods) {
        Some(l) => lists.push(l),
        None => {},
    }
    ObjcClass {
        isa,
        super_class,
        name: name.clone(),
        version: data.version,
        info: data.info,
        instance_size,
        method_list: lists,
        dtable: Some(MethodCache::new()),
        subclass_list: None,
        sibling_class: sibling,
        abi_version: data.abi_version,
    }
}

/// The selectors of a compiled class pair's methods are below `n`.
pub open spec fn compiled_bounded(cc: CompiledClass, n: nat) -> bool {
    &&& forall|j: int| 0 <= j < cc.cls.methods@.len() ==> #[trigger] cc.cls.methods@[j].sel < n
    &&& forall|j: int| 0 <= j < cc.meta.methods@.len() ==> #[trigger] cc.meta.methods@[j].sel < n
    &&& cc.cls.instance_size != i64::MIN
    &&& cc.meta.instance_size != i64::MIN
}

/// A compiled class pair as a module hands it over: its selectors are
/// below `n`, and its superclass is named by address, not by a position in
/// a module.
pub open spec fn entry_ok(cc: CompiledClass, n: nat) -> bool {
    &&& compiled_bounded(cc, n)
    &&& !(cc.super_class matches Some(ClassSource::Module(_)))
}

/// Place a compiled class pair, with superclass `sup`, in the class table
/// and fix it up; return the class (its metaclass follows it).
fn place_class(rt: &mut Runtime, cc: &CompiledClass, sup: Class) -> (r: ClassRef)
    requires
        old(rt).wf(),
        old(rt).classes.valid_opt(sup),
        compiled_bounded(*cc, old(rt).sels.num_sels()),
        old(rt).classes.classes@.len() + 2 <= usize::MAX,
    ensures
        final(rt).wf(),
        final(rt).sels == old(rt).sels,
        final(rt).loaded == old(rt).loaded,
        final(rt).classes.registry == old(rt).classes.registry,
        placed_pair(old(rt).classes, *cc, sup, final(rt).classes, r),
{
    let ghost o = rt.classes;
    let n = rt.classes.classes.len();
    let is_root = sup.is_none();
    let size = if cc.cls.instance_size < 0 {
        -cc.cls.instance_size
    } else {
        cc.cls.instance_size
    };
    let size = if size == 0 && is_root {
        OBJECT_HEADER_SIZE
    } else {
        size
    };
    let meta_size = if cc.meta.instance_size < 0 {
        -cc.meta.instance_size
    } else {
        cc.meta.instance_size
    };
    let (sibling, meta_super, meta_isa) = match sup {
        None => (None, Some(ClassRef(n)), Some(ClassRef(n + 1))),
        Some(s) => {
            proof {
                assert(rt.classes.links_ok(s.0 as int));
            }
            let root = find_root(&rt.classes, s);
            (rt.classes.classes[s.0].subclass_list, rt.classes.classes[s.0].isa, rt.classes.classes[root.0].isa)
        },
    };
    proof {
        if let Some(s) = sup {
            assert(o.links_ok(s.0 as int));
        }
    }
    let meta_sibling = match (sup, meta_super) {
        (Some(s), Some(ms)) => if ms.0 == s.0 {
            Some(ClassRef(n))
        } else {
            rt.classes.classes[ms.0].subclass_list
        },
        _ => None,
    };
    let cls = loaded_record(&cc.cls, &cc.name, Some(ClassRef(n + 1)), sup, size, sibling);
    rt.classes.classes.push(cls);
    let meta = loaded_record(&cc.meta, &cc.name, meta_isa, meta_super, meta_size, meta_sibling);
    rt.classes.classes.push(meta);
    if let Some(s) = sup {
        rt.classes.classes[s.0].subclass_list = Some(ClassRef(n));
        if let Some(ms) = meta_super {
            rt.classes.classes[ms.0].subclass_list = Some(ClassRef(n + 1));
        }
    }
    proof {
        let t = rt.classes;
        if let Some(s) = sup {
            lemma_root_of_valid(o, s.0 as int);
            assert(o.links_ok(root_of(o, s.0 as int)));
            assert(o.links_ok(s.0 as int));
            if let Some(ms) = meta_super {
                assert(o.links_ok(ms.0 as int));
            }
        }
        assert forall|c: int| 0 <= c < t.classes@.len() implies #[trigger] t.links_ok(c) by {
            if c < n {
                assert(o.links_ok(c));
                assert(t.classes@[c].super_class == o.classes@[c].super_class);
                if let Some(x) = t.classes@[c].subclass_list {
                    if x.0 < n {
                        assert(t.classes@[x.0 as int].super_class == o.classes@[x.0 as int].super_class);
                    }
                }
                if let Some(y) = t.classes@[c].sibling_class {
                    assert(t.classes@[y.0 as int].super_class == o.classes@[y.0 as int].super_class);
                }
            } else if c == n {
                if let Some(y) = t.classes@[c].sibling_class {
                    assert(t.classes@[y.0 as int].super_class == o.classes@[y.0 as int].super_class);
                }
            } else {
                if let Some(y) = t.classes@[c].sibling_class {
                    if y.0 < n {
                        assert(t.classes@[y.0 as int].super_class == o.classes@[y.0 as int].super_class);
                    }
                }
            }
        }
        assert(t.registry_ok()) by {
            assert forall|i: int| 0 <= i < t.registry@.len() implies #[trigger] t.registry@[i].cls.0 < t.classes@.len() by {
                assert(o.registry@[i].cls.0 < o.classes@.len());
            }
        }
        assert forall|c: int, i: int, j: int|
            0 <= c < t.classes@.len() && 0 <= i < t.classes@[c].method_list@.len() && 0 <= j
                < t.classes@[c].method_list@[i].entries@.len()
            implies #[trigger] t.classes@[c].method_list@[i].entries@[j].sel < rt.sels.num_sels() by {
            if c < n {
                assert(t.classes@[c].method_list == o.classes@[c].method_list);
            } else if c == n {
                assert(cc.cls.methods@[j].sel < rt.sels.num_sels());
            } else {
                assert(cc.meta.methods@[j].sel < rt.sels.num_sels());
            }
        }
        assert forall|c: int| 0 <= c < t.classes@.len() implies (#[trigger] t.classes@[c].dtable matches Some(m) ==> m.wf(
            rt.sels.num_sels(),
        )) by {
            if c < n {
                assert(t.classes@[c].dtable == o.classes@[c].dtable);
            }
        }
    }
    ClassRef(n)
}

/// `f` and `r` are what placing the compiled class pair `cc` with
/// superclass `sup` in `o` gives: the class at `r`, its metaclass right
/// after it, both fixed up, and the two threaded into the subclass lists
/// of their superclasses.
pub open spec fn placed_pair(o: ClassTable, cc: CompiledClass, sup: Class, f: ClassTable, r: ClassRef) -> bool {
    let n = o.classes@.len() as int;
    let cls = f.classes@[n];
    let meta = f.classes@[n + 1];
    let meta_super = match sup {
        Some(s) => o.classes@[s.0 as int].isa,
        None => Some(r),
    };
    &&& r.0 == n
    &&& f.classes@.len() == n + 2
    &&& f.registry == o.registry
    &&& (cls.isa matches Some(m) && m.0 == n + 1)
    &&& cls.super_class == sup
    &&& cls.name@ == cc.name@
    &&& cls.version == cc.cls.version
    &&& cls.info == cc.cls.info
    &&& cls.instance_size == patched_class_size(cc.cls.instance_size, sup is None)
    &&& converted_lists(cc.cls.methods@, cls.method_list@)
    &&& cls.dtable matches Some(m) && m.entries@.len() == 0
    &&& cls.subclass_list is None
    &&& cls.sibling_class == (match sup {
        Some(s) => o.classes@[s.0 as int].subclass_list,
        None => None,
    })
    &&& cls.abi_version == cc.cls.abi_version
    &&& (match sup {
        Some(s) => meta.isa == o.classes@[root_of(o, s.0 as int)].isa,
        None => meta.isa matches Some(m) && m.0 == n + 1,
    })
    &&& meta.super_class == meta_super
    &&& meta.name@ == cc.name@
    &&& meta.version == cc.meta.version
    &&& meta.info == cc.meta.info
    &&& meta.instance_size == patched_size(cc.meta.instance_size)
    &&& converted_lists(cc.meta.methods@, meta.method_list@)
    &&& meta.dtable matches Some(m) && m.entries@.len() == 0
    &&& meta.subclass_list is None
    &&& meta.sibling_class == (match (sup, meta_super) {
        (Some(s), Some(ms)) => if ms == s {
            Some(r)
        } else {
            o.classes@[ms.0 as int].subclass_list
        },
        _ => None,
    })
    &&& meta.abi_version == cc.meta.abi_version
    &&& forall|k: int|
        0 <= k < n ==> {
            let ok = o.classes@[k];
            let fk = #[trigger] f.classes@[k];
            &&& fk.isa == ok.isa
            &&& fk.super_class == ok.super_class
            &&& fk.name == ok.name
            &&& fk.version == ok.version
            &&& fk.info == ok.info
            &&& fk.instance_size == ok.instance_size
            &&& fk.method_list == ok.method_list
            &&& fk.dtable == ok.dtable
            &&& fk.sibling_class == ok.sibling_class
            &&& fk.abi_version == ok.abi_version
            &&& (if sup is Some && (meta_super matches Some(ms) && ms.0 == k) {
                fk.subclass_list matches Some(x) && x.0 == n + 1
            } else if sup matches Some(s) && s.0 == k {
                fk.subclass_list == Some(r)
            } else {
                fk.subclass_list == ok.subclass_list
            })
        }
}

/// `t1` keeps every class record of `t0`, except for subclass lists and
/// flags, and may have more, whose caches are empty.
pub open spec fn keeps_records(t0: ClassTable, t1: ClassTable) -> bool {
    &&& t0.classes@.len() <= t1.classes@.len()
    &&& forall|k: int|
        0 <= k < t0.classes@.len() ==> {
            let a = t0.classes@[k];
            let b = #[trigger] t1.classes@[k];
            &&& b.isa == a.isa
            &&& b.super_class == a.super_class
            &&& b.name == a.name
            &&& b.version == a.version
            &&& b.instance_size == a.instance_size
            &&& b.method_list == a.method_list
            &&& b.dtable == a.dtable
            &&& b.sibling_class == a.sibling_class
            &&& b.abi_version == a.abi_version
        }
    &&& forall|k: int| t0.classes@.len() <= k < t1.classes@.len() ==> (#[trigger] t1.classes@[k]).cache_empty()
}

proof fn lemma_root_of_kept(t0: ClassTable, t1: ClassTable, c: int)
    requires
        keeps_records(t0, t1),
        0 <= c < t0.classes@.len(),
    ensures
        root_of(t1, c) == root_of(t0, c),
    decreases c,
{
    assert(t1.classes@[c].super_class == t0.classes@[c].super_class);
    if let Some(s) = t0.classes@[c].super_class {
        if s.0 < c {
            lemma_root_of_kept(t0, t1, s.0 as int);
        }
    }
}

/// The compiled class pair `cc` with superclass `sup` is loaded as class
/// `c` (and metaclass `c + 1`) in `t`, fixed up as loading does (all but
/// the class's flags and the subclass lists).
pub open spec fn loaded_as(t: ClassTable, cc: CompiledClass, sup: Class, c: ClassRef) -> bool {
    let cls = t.classes@[c.0 as int];
    let meta = t.classes@[c.0 + 1];
    &&& c.0 + 1 < t.classes@.len()
    &&& t.valid_opt(sup)
    &&& (sup matches Some(s) ==> s.0 < c.0)
    &&& (cls.isa matches Some(m) && m.0 == c.0 + 1)
    &&& cls.super_class == sup
    &&& cls.name@ == cc.name@
    &&& cls.version == cc.cls.version
    &&& cls.instance_size == patched_class_size(cc.cls.instance_size, sup is None)
    &&& converted_lists(cc.cls.methods@, cls.method_list@)
    &&& cls.abi_version == cc.cls.abi_version
    &&& (match sup {
        Some(s) => meta.isa == t.classes@[root_of(t, s.0 as int)].isa,
        None => meta.isa matches Some(m) && m.0 == c.0 + 1,
    })
    &&& meta.super_class == (match sup {
        Some(s) => t.classes@[s.0 as int].isa,
        None => Some(c),
    })
    &&& meta.name@ == cc.name@
    &&& meta.version == cc.meta.version
    &&& meta.info == cc.meta.info
    &&& meta.instance_size == patched_size(cc.meta.instance_size)
    &&& converted_lists(cc.meta.methods@, meta.method_list@)
    &&& meta.abi_version == cc.meta.abi_version
}

proof fn lemma_loaded_as_kept(t0: ClassTable, t1: ClassTable, cc: CompiledClass, sup: Class, c: ClassRef)
    requires
        t0.wf(),
        keeps_records(t0, t1),
        loaded_as(t0, cc, sup, c),
        t1.classes@[c.0 + 1].info == t0.classes@[c.0 + 1].info,
    ensures
        loaded_as(t1, cc, sup, c),
{
    if let Some(s) = sup {
        lemma_root_of_valid(t0, s.0 as int);
        lemma_root_of_kept(t0, t1, s.0 as int);
        assert(t1.classes@[root_of(t0, s.0 as int)].isa == t0.classes@[root_of(t0, s.0 as int)].isa);
        assert(t1.classes@[s.0 as int].isa == t0.classes@[s.0 as int].isa);
    }
    assert(t1.classes@[c.0 as int].isa == t0.classes@[c.0 as int].isa);
    assert(t1.classes@[c.0 + 1].isa == t0.classes@[c.0 + 1].isa);
}

/// Class `c` is in the list of subclasses of its superclass (if it has one).
pub open spec fn threaded(t: ClassTable, c: int) -> bool {
    t.classes@[c].super_class matches Some(s) ==> sibling_chain(t, t.classes@[s.0 as int].subclass_list).contains(
        ClassRef(c as usize),
    )
}

/// A sibling chain of `t` reads the same in `u` when `u` keeps the sibling
/// links of `t`'s classes.
proof fn lemma_sibling_chain_kept(t: ClassTable, u: ClassTable, x: Class)
    requires
        t.wf(),
        t.classes@.len() <= u.classes@.len(),
        forall|k: int| 0 <= k < t.classes@.len() ==> (#[trigger] u.classes@[k]).sibling_class == t.classes@[k].sibling_class,
        x matches Some(y) ==> y.0 < t.classes@.len(),
    ensures
        sibling_chain(u, x) == sibling_chain(t, x),
    decreases opt_rank(x),
{
    if let Some(y) = x {
        assert(t.links_ok(y.0 as int));
        assert(u.classes@[y.0 as int].sibling_class == t.classes@[y.0 as int].sibling_class);
        lemma_sibling_chain_kept(t, u, t.classes@[y.0 as int].sibling_class);
    }
}

/// Placing a class pair keeps every earlier class in its superclass's list
/// of subclasses.
proof fn lemma_place_keeps_threaded(t0: ClassTable, cc: CompiledClass, sup: Class, t1: ClassTable, r: ClassRef, x: int)
    requires
        t0.wf(),
        t0.valid_opt(sup),
        placed_pair(t0, cc, sup, t1, r),
        0 <= x < t0.classes@.len(),
        threaded(t0, x),
    ensures
        threaded(t1, x),
{
    let n = t0.classes@.len() as int;
    assert(t0.links_ok(x));
    assert forall|k: int| 0 <= k < n implies (#[trigger] t1.classes@[k]).sibling_class == t0.classes@[k].sibling_class by {}
    if let Some(s) = t0.classes@[x].super_class {
        let si = s.0 as int;
        assert(t1.classes@[x].super_class == Some(s));
        assert(t0.links_ok(si));
        let old_head = t0.classes@[si].subclass_list;
        lemma_sibling_chain_kept(t0, t1, old_head);
        let new_head = t1.classes@[si].subclass_list;
        if new_head != old_head {
            let cls = t1.classes@[n];
            let meta = t1.classes@[n + 1];
            if let Some(sp) = sup {
                assert(t0.links_ok(sp.0 as int));
                lemma_sibling_chain_kept(t0, t1, t0.classes@[sp.0 as int].subclass_list);
                let ms_head = cls.sibling_class;
                assert(sibling_chain(t1, Some(r)) == seq![r].add(sibling_chain(t1, cls.sibling_class)));
                if let Some(ms) = t0.classes@[sp.0 as int].isa {
                    if ms.0 as int == si {
                        lemma_sibling_chain_kept(t0, t1, t0.classes@[ms.0 as int].subclass_list);
                        assert(sibling_chain(t1, new_head) == seq![ClassRef((n + 1) as usize)].add(sibling_chain(t1, meta.sibling_class)));
                        if ms == sp {
                            assert(sibling_chain(t1, new_head).contains(ClassRef(x as usize)) ) by {
                                let c1 = sibling_chain(t1, Some(r));
                                let w = choose|k: int| 0 <= k < sibling_chain(t0, old_head).len() && sibling_chain(t0, old_head)[k] == ClassRef(x as usize);
                                assert(sibling_chain(t1, new_head)[w + 2] == ClassRef(x as usize));
                            }
                        } else {
                            assert(sibling_chain(t1, new_head).contains(ClassRef(x as usize))) by {
                                let w = choose|k: int| 0 <= k < sibling_chain(t0, old_head).len() && sibling_chain(t0, old_head)[k] == ClassRef(x as usize);
                                assert(sibling_chain(t1, new_head)[w + 1] == ClassRef(x as usize));
                            }
                        }
                    } else {
                        assert(sp.0 as int == si);
                        assert(sibling_chain(t1, new_head).contains(ClassRef(x as usize))) by {
                            let w = choose|k: int| 0 <= k < sibling_chain(t0, old_head).len() && sibling_chain(t0, old_head)[k] == ClassRef(x as usize);
                            assert(sibling_chain(t1, new_head)[w + 1] == ClassRef(x as usize));
                        }
                    }
                } else {
                    assert(sp.0 as int == si);
                    assert(sibling_chain(t1, new_head).contains(ClassRef(x as usize))) by {
                        let w = choose|k: int| 0 <= k < sibling_chain(t0, old_head).len() && sibling_chain(t0, old_head)[k] == ClassRef(x as usize);
                        assert(sibling_chain(t1, new_head)[w + 1] == ClassRef(x as usize));
                    }
                }
            }
        }
    }
}

/// A threaded class occurs exactly once in its superclass's list of
/// subclasses.
pub proof fn lemma_threaded_once(t: ClassTable, c: int)
    requires
        t.wf(),
        0 <= c < t.classes@.len(),
        t.classes@[c].super_class is Some,
        threaded(t, c),
    ensures
        ({
            let s = t.classes@[c].super_class->0;
            let ch = sibling_chain(t, t.classes@[s.0 as int].subclass_list);
            &&& ch.contains(ClassRef(c as usize))
            &&& forall|i: int, j: int|
                0 <= i < ch.len() && 0 <= j < ch.len() && ch[i] == ClassRef(c as usize) && ch[j] == ClassRef(c as usize)
                    ==> i == j
        }),
{
    let s = t.classes@[c].super_class->0;
    assert(t.links_ok(c));
    assert(t.links_ok(s.0 as int));
    let ch = sibling_chain(t, t.classes@[s.0 as int].subclass_list);
    lemma_sibling_chain_decreasing(t, t.classes@[s.0 as int].subclass_list);
    assert forall|i: int, j: int|
        0 <= i < ch.len() && 0 <= j < ch.len() && ch[i] == ClassRef(c as usize) && ch[j] == ClassRef(c as usize) implies i == j by {
        if i < j {
            assert(ch[i].0 > ch[j].0);
        } else if j < i {
            assert(ch[j].0 > ch[i].0);
        }
    }
}

/// Every class in the list of subclasses of `c` comes after `c + 1` (the
/// metaclass of a loaded class), so that metaclass is not in the list.
pub open spec fn subclasses_after_meta(t: ClassTable, c: int) -> bool {
    forall|k: int|
        0 <= k < sibling_chain(t, t.classes@[c].subclass_list).len() ==> #[trigger] sibling_chain(
            t,
            t.classes@[c].subclass_list,
        )[k].0 > c + 1
}

/// Placing a class pair keeps an earlier class's metaclass out of its list
/// of subclasses: only the newly placed records can join the list.
proof fn lemma_place_keeps_meta_out(t0: ClassTable, cc: CompiledClass, sup: Class, t1: ClassTable, r: ClassRef, c: int)
    requires
        t0.wf(),
        t0.valid_opt(sup),
        placed_pair(t0, cc, sup, t1, r),
        0 <= c,
        c + 1 < t0.classes@.len(),
        subclasses_after_meta(t0, c),
    ensures
        subclasses_after_meta(t1, c),
{
    let n = t0.classes@.len() as int;
    assert(t0.links_ok(c));
    assert forall|k: int| 0 <= k < n implies (#[trigger] t1.classes@[k]).sibling_class == t0.classes@[k].sibling_class by {}
    let old_head = t0.classes@[c].subclass_list;
    let old_chain = sibling_chain(t0, old_head);
    lemma_sibling_chain_kept(t0, t1, old_head);
    let new_head = t1.classes@[c].subclass_list;
    let new_chain = sibling_chain(t1, new_head);
    if new_head != old_head {
        let cls = t1.classes@[n];
        let meta = t1.classes@[n + 1];
        let sp = sup->0;
        assert(t0.links_ok(sp.0 as int));
        lemma_sibling_chain_kept(t0, t1, t0.classes@[sp.0 as int].subclass_list);
        assert(sibling_chain(t1, Some(r)) == seq![r].add(sibling_chain(t1, cls.sibling_class)));
        if let Some(ms) = t0.classes@[sp.0 as int].isa {
            assert(t0.links_ok(ms.0 as int));
            lemma_sibling_chain_kept(t0, t1, t0.classes@[ms.0 as int].subclass_list);
        }
        let m = ClassRef((n + 1) as usize);
        assert(sibling_chain(t1, Some(m)) == seq![m].add(sibling_chain(t1, meta.sibling_class)));
        assert forall|k: int| 0 <= k < new_chain.len() implies #[trigger] new_chain[k].0 > c + 1 by {
            if new_head == Some(r) {
                if k > 0 {
                    assert(new_chain[k] == old_chain[k - 1]);
                }
            } else {
                assert(new_head == Some(m));
                if k > 0 {
                    if t0.classes@[sp.0 as int].isa == Some(sp) {
                        if k > 1 {
                            assert(new_chain[k] == old_chain[k - 2]);
                        }
                    } else {
                        assert(new_chain[k] == old_chain[k - 1]);
                    }
                }
            }
        }
    }
}

/// A class pair placed under a superclass is in its superclass's list of
/// subclasses, and its metaclass in the list of the metaclass's
/// superclass.
proof fn lemma_place_threads_new(t0: ClassTable, cc: CompiledClass, sup: Class, t1: ClassTable, r: ClassRef)
    requires
        t0.wf(),
        t0.valid_opt(sup),
        placed_pair(t0, cc, sup, t1, r),
        sup is Some,
    ensures
        threaded(t1, r.0 as int),
        threaded(t1, r.0 + 1),
{
    let n = t0.classes@.len() as int;
    let sp = sup->0;
    assert(t0.links_ok(sp.0 as int));
    let cls = t1.classes@[n];
    let meta = t1.classes@[n + 1];
    assert(sibling_chain(t1, Some(r)) == seq![r].add(sibling_chain(t1, cls.sibling_class)));
    assert(sibling_chain(t1, Some(r)).contains(r)) by {
        assert(sibling_chain(t1, Some(r))[0] == r);
    }
    let m = ClassRef((n + 1) as usize);
    if let Some(ms) = t0.classes@[sp.0 as int].isa {
        assert(t0.links_ok(ms.0 as int));
    }
    assert(sibling_chain(t1, Some(m)) == seq![m].add(sibling_chain(t1, meta.sibling_class)));
    assert(sibling_chain(t1, Some(m))[0] == m);
    if let Some(ms) = t0.classes@[sp.0 as int].isa {
        if ms == sp {
            assert(sibling_chain(t1, Some(m))[1] == r);
        }
    }
}

/// The number of unplaced entries.
pub open spec fn count_unplaced(placed: Seq<Option<ClassRef>>) -> nat
    decreases placed.len(),
{
    if placed.len() == 0 {
        0
    } else {
        count_unplaced(placed.drop_last()) + (if placed.last() is None {
            1nat
        } else {
            0nat
        })
    }
}

proof fn lemma_count_unplaced_bound(placed: Seq<Option<ClassRef>>)
    ensures
        count_unplaced(placed) <= placed.len(),
    decreases placed.len(),
{
    if placed.len() > 0 {
        lemma_count_unplaced_bound(placed.drop_last());
    }
}

proof fn lemma_count_unplaced_update(placed: Seq<Option<ClassRef>>, i: int, c: ClassRef)
    requires
        0 <= i < placed.len(),
        placed[i] is None,
    ensures
        count_unplaced(placed.update(i, Some(c))) + 1 == count_unplaced(placed),
    decreases placed.len(),
{
    let u = placed.update(i, Some(c));
    if i == placed.len() - 1 {
        assert(u.drop_last() =~= placed.drop_last());
    } else {
        assert(u.drop_last() =~= placed.drop_last().update(i, Some(c)));
        lemma_count_unplaced_update(placed.drop_last(), i, c);
    }
}

/// A module entry's superclass is available: the entry is a root, its
/// superclass is a loaded class (below `n0`), or it is a placed entry of
/// the module.  (An address not yet resolved to one of these is not
/// available.)
pub open spec fn super_ready(src: Option<ClassSource>, placed: Seq<Option<ClassRef>>, n0: nat) -> bool {
    match src {
        None => true,
        Some(ClassSource::Loaded(r)) => r.0 < n0,
        Some(ClassSource::Module(j)) => j < placed.len() && placed[j as int] is Some,
        Some(ClassSource::Address(_)) => false,
    }
}

/// The superclass an available source designates.
pub open spec fn super_of(src: Option<ClassSource>, placed: Seq<Option<ClassRef>>) -> Class {
    match src {
        None => None,
        Some(ClassSource::Loaded(r)) => Some(r),
        Some(ClassSource::Module(j)) => placed[j as int],
        Some(ClassSource::Address(_)) => None,
    }
}

/// The superclass of a module entry, if it is available.
fn resolve_super(src: Option<ClassSource>, placed: &Vec<Option<ClassRef>>, n0: usize) -> (r: Option<Class>)
    ensures
        r is Some <==> super_ready(src, placed@, n0 as nat),
        r matches Some(s) ==> s == super_of(src, placed@),
{
    match src {
        None => Some(None),
        Some(ClassSource::Loaded(c)) => if c.0 < n0 {
            Some(Some(c))
        } else {
            None
        },
        Some(ClassSource::Module(j)) => if j < placed.len() && placed[j].is_some() {
            Some(placed[j])
        } else {
            None
        },
        Some(ClassSource::Address(_)) => None,
    }
}

/// Every placed root class keeps its metaclass out of its list of
/// subclasses.
pub open spec fn roots_ok(t: ClassTable, placed: Seq<Option<ClassRef>>) -> bool {
    forall|i: int|
        0 <= i < placed.len() ==> (#[trigger] placed[i] matches Some(c) ==> (t.classes@[c.0 as int].super_class is None
            ==> subclasses_after_meta(t, c.0 as int)))
}

/// Placing the entry `i` of a module keeps every placed root's metaclass
/// out of its list of subclasses.
proof fn lemma_place_roots(
    t0: ClassTable,
    t1: ClassTable,
    module: Seq<CompiledClass>,
    p0: Seq<Option<ClassRef>>,
    i: int,
    sup: Class,
    c: ClassRef,
    n0: nat,
)
    requires
        t0.wf(),
        t0.valid_opt(sup),
        placement_ok(t0, module, p0, n0),
        roots_ok(t0, p0),
        0 <= i < module.len(),
        p0[i] is None,
        placed_pair(t0, module[i], sup, t1, c),
    ensures
        roots_ok(t1, p0.update(i, Some(c))),
{
    let p1 = p0.update(i, Some(c));
    assert forall|m: int| 0 <= m < p1.len() implies (#[trigger] p1[m] matches Some(cm) ==> (t1.classes@[cm.0 as int].super_class
        is None ==> subclasses_after_meta(t1, cm.0 as int))) by {
        if m != i {
            if let Some(cm) = p1[m] {
                assert(p0[m] == Some(cm));
                assert(loaded_as(t0, module[m], super_of(module[m].super_class, p0), cm));
                if t1.classes@[cm.0 as int].super_class is None {
                    assert(t1.classes@[cm.0 as int].super_class == t0.classes@[cm.0 as int].super_class);
                    lemma_place_keeps_meta_out(t0, module[i], sup, t1, c, cm.0 as int);
                }
            }
        }
    }
}

/// Placing the entry `i` of a module keeps every placed pair threaded.
proof fn lemma_place_threading(
    t0: ClassTable,
    t1: ClassTable,
    module: Seq<CompiledClass>,
    p0: Seq<Option<ClassRef>>,
    i: int,
    sup: Class,
    c: ClassRef,
    n0: nat,
)
    requires
        t0.wf(),
        t0.valid_opt(sup),
        placement_ok(t0, module, p0, n0),
        threading_ok(t0, p0),
        0 <= i < module.len(),
        p0[i] is None,
        placed_pair(t0, module[i], sup, t1, c),
    ensures
        threading_ok(t1, p0.update(i, Some(c))),
{
    let p1 = p0.update(i, Some(c));
    assert forall|m: int| 0 <= m < p1.len() implies (#[trigger] p1[m] matches Some(cm) ==> (t1.classes@[cm.0 as int].super_class
        is Some ==> threaded(t1, cm.0 as int) && threaded(t1, cm.0 + 1))) by {
        if m == i {
            if sup is Some {
                lemma_place_threads_new(t0, module[i], sup, t1, c);
            }
        } else if let Some(cm) = p1[m] {
            assert(p0[m] == Some(cm));
            assert(loaded_as(t0, module[m], super_of(module[m].super_class, p0), cm));
            if t1.classes@[cm.0 as int].super_class is Some {
                assert(t1.classes@[cm.0 as int].super_class == t0.classes@[cm.0 as int].super_class);
                lemma_place_keeps_threaded(t0, module[i], sup, t1, c, cm.0 as int);
                lemma_place_keeps_threaded(t0, module[i], sup, t1, c, cm.0 + 1);
            }
        }
    }
}

/// The invariant of the placement rounds.
pub open spec fn placement_ok(
    t: ClassTable,
    module: Seq<CompiledClass>,
    placed: Seq<Option<ClassRef>>,
    n0: nat,
) -> bool {
    &&& placed.len() == module.len()
    &&& forall|i: int|
        0 <= i < module.len() ==> (#[trigger] placed[i] matches Some(c) ==> {
            &&& super_ready(module[i].super_class, placed, n0)
            &&& loaded_as(t, module[i], super_of(module[i].super_class, placed), c)
            &&& n0 <= c.0
            &&& t.classes@[c.0 as int].info == module[i].cls.info
        })
    &&& forall|a: int, b: int|
        0 <= a < module.len() && 0 <= b < module.len() && a != b && (#[trigger] placed[a]) is Some && (#[trigger] placed[b]) is Some
            ==> (placed[a]->0).0 != (placed[b]->0).0 && (placed[a]->0).0 != (placed[b]->0).0 + 1
}

/// The entry just placed satisfies the placement invariant.
proof fn lemma_place_new_entry(
    t0: ClassTable,
    t1: ClassTable,
    module: Seq<CompiledClass>,
    p0: Seq<Option<ClassRef>>,
    i: int,
    sup: Class,
    c: ClassRef,
    n0: nat,
)
    requires
        t0.wf(),
        n0 <= t0.classes@.len(),
        placement_ok(t0, module, p0, n0),
        0 <= i < module.len(),
        p0[i] is None,
        super_ready(module[i].super_class, p0, n0),
        sup == super_of(module[i].super_class, p0),
        placed_pair(t0, module[i], sup, t1, c),
    ensures
        super_ready(module[i].super_class, p0.update(i, Some(c)), n0),
        super_of(module[i].super_class, p0.update(i, Some(c))) == sup,
        loaded_as(t1, module[i], sup, c),
        n0 <= c.0,
        t1.classes@[c.0 as int].info == module[i].cls.info,
{
    let p1 = p0.update(i, Some(c));
    let n = t0.classes@.len();
    if let Some(ClassSource::Module(j)) = module[i].super_class {
        assert(j != i);
        assert(p1[j as int] == p0[j as int]);
        assert(p0[j as int] matches Some(cj) && loaded_as(t0, module[j as int], super_of(module[j as int].super_class, p0), cj));
    }
    if let Some(s) = sup {
        assert(s.0 < n);
        lemma_root_of_valid(t0, s.0 as int);
        lemma_root_of_kept(t0, t1, s.0 as int);
        assert(t1.classes@[root_of(t0, s.0 as int)].isa == t0.classes@[root_of(t0, s.0 as int)].isa);
        assert(t1.classes@[s.0 as int].isa == t0.classes@[s.0 as int].isa);
    }
}

/// Placing the entry `i` of a module keeps the placement invariant.
proof fn lemma_place_step(
    t0: ClassTable,
    t1: ClassTable,
    module: Seq<CompiledClass>,
    p0: Seq<Option<ClassRef>>,
    i: int,
    sup: Class,
    c: ClassRef,
    n0: nat,
)
    requires
        t0.wf(),
        n0 <= t0.classes@.len(),
        placement_ok(t0, module, p0, n0),
        0 <= i < module.len(),
        p0[i] is None,
        super_ready(module[i].super_class, p0, n0),
        sup == super_of(module[i].super_class, p0),
        placed_pair(t0, module[i], sup, t1, c),
    ensures
        keeps_records(t0, t1),
        placement_ok(t1, module, p0.update(i, Some(c)), n0),
{
    let p1 = p0.update(i, Some(c));
    let n = t0.classes@.len();
    assert(keeps_records(t0, t1));
    lemma_place_new_entry(t0, t1, module, p0, i, sup, c, n0);
    assert forall|m: int| 0 <= m < module.len() implies (#[trigger] p1[m] matches Some(cm) ==> {
        &&& super_ready(module[m].super_class, p1, n0)
        &&& loaded_as(t1, module[m], super_of(module[m].super_class, p1), cm)
        &&& n0 <= cm.0
        &&& t1.classes@[cm.0 as int].info == module[m].cls.info
    }) by {
        if m != i {
            if let Some(cm) = p1[m] {
                assert(p0[m] == Some(cm));
                lemma_ready_mono(module[m].super_class, p0, i, c, n0);
                assert(loaded_as(t0, module[m], super_of(module[m].super_class, p0), cm));
                assert(t1.classes@[cm.0 + 1].info == t0.classes@[cm.0 + 1].info);
                lemma_loaded_as_kept(t0, t1, module[m], super_of(module[m].super_class, p0), cm);
                assert(t1.classes@[cm.0 as int].info == t0.classes@[cm.0 as int].info);
            }
        }
    }
    assert forall|a: int, b: int|
        0 <= a < module.len() && 0 <= b < module.len() && a != b && (#[trigger] p1[a]) is Some && (#[trigger] p1[b]) is Some
        implies (p1[a]->0).0 != (p1[b]->0).0 && (p1[a]->0).0 != (p1[b]->0).0 + 1 by {
        if a != i {
            assert(p0[a] == p1[a]);
            assert(loaded_as(t0, module[a], super_of(module[a].super_class, p0), p0[a]->0));
        }
        if b != i {
            assert(p0[b] == p1[b]);
            assert(loaded_as(t0, module[b], super_of(module[b].super_class, p0), p0[b]->0));
        }
        if a != i && b != i {
            assert(p0[a] is Some && p0[b] is Some);
            assert((p0[a]->0).0 != (p0[b]->0).0 && (p0[a]->0).0 != (p0[b]->0).0 + 1);
        }
    }
}

/// Placing an entry keeps every available superclass available, and
/// designating the same class.
proof fn lemma_ready_mono(src: Option<ClassSource>, p0: Seq<Option<ClassRef>>, i: int, c: ClassRef, n0: nat)
    requires
        0 <= i < p0.len(),
        p0[i] is None,
        super_ready(src, p0, n0),
    ensures
        super_ready(src, p0.update(i, Some(c)), n0),
        super_of(src, p0.update(i, Some(c))) == super_of(src, p0),
{
    if let Some(ClassSource::Module(j)) = src {
        assert(j != i);
    }
}

/// Records that `keeps_records` keeps, it keeps transitively.
proof fn lemma_keeps_records_trans(t0: ClassTable, t1: ClassTable, t2: ClassTable)
    requires
        keeps_records(t0, t1),
        keeps_records(t1, t2),
    ensures
        keeps_records(t0, t2),
{
    assert forall|k: int| 0 <= k < t0.classes@.len() implies {
        let a = t0.classes@[k];
        let b = #[trigger] t2.classes@[k];
        &&& b.isa == a.isa
        &&& b.super_class == a.super_class
        &&& b.name == a.name
        &&& b.version == a.version
        &&& b.instance_size == a.instance_size
        &&& b.method_list == a.method_list
        &&& b.dtable == a.dtable
        &&& b.sibling_class == a.sibling_class
        &&& b.abi_version == a.abi_version
    } by {
        assert(t1.classes@[k].isa == t0.classes@[k].isa);
    }
    assert forall|k: int| t0.classes@.len() <= k < t2.classes@.len() implies (#[trigger] t2.classes@[k]).cache_empty() by {
        if k < t1.classes@.len() {
            assert(t1.classes@[k].cache_empty());
            assert(t2.classes@[k].dtable == t1.classes@[k].dtable);
        }
    }
}

/// Every placed class pair with a superclass is threaded: the class into
/// its superclass's list of subclasses, the metaclass into its
/// superclass's.
pub open spec fn threading_ok(t: ClassTable, placed: Seq<Option<ClassRef>>) -> bool {
    forall|i: int|
        0 <= i < placed.len() ==> (#[trigger] placed[i] matches Some(c) ==> (t.classes@[c.0 as int].super_class is Some
            ==> threaded(t, c.0 as int) && threaded(t, c.0 + 1)))
}

/// One round of placement: go through the module and place every unplaced
/// entry whose superclass is available.  Returns whether anything was
/// placed; if not, no unplaced entry has an available superclass.
fn place_round(
    rt: &mut Runtime,
    module: &Vec<CompiledClass>,
    placed: &mut Vec<Option<ClassRef>>,
    placed_count: &mut usize,
    n0: usize,
) -> (changed: bool)
    requires
        old(rt).wf(),
        n0 <= old(rt).classes.classes@.len(),
        forall|m: int| 0 <= m < module@.len() ==> compiled_bounded(#[trigger] module@[m], old(rt).sels.num_sels()),
        n0 + 2 * module@.len() <= usize::MAX,
        placement_ok(old(rt).classes, module@, old(placed)@, n0 as nat),
        threading_ok(old(rt).classes, old(placed)@),
        roots_ok(old(rt).classes, old(placed)@),
        *old(placed_count) + count_unplaced(old(placed)@) == module@.len(),
        old(rt).classes.classes@.len() == n0 + 2 * *old(placed_count),
    ensures
        final(rt).wf(),
        final(rt).sels == old(rt).sels,
        final(rt).loaded == old(rt).loaded,
        final(rt).classes.registry == old(rt).classes.registry,
        keeps_records(old(rt).classes, final(rt).classes),
        forall|m: int| 0 <= m < n0 ==> #[trigger] final(rt).classes.classes@[m].info == old(rt).classes.classes@[m].info,
        placement_ok(final(rt).classes, module@, final(placed)@, n0 as nat),
        threading_ok(final(rt).classes, final(placed)@),
        roots_ok(final(rt).classes, final(placed)@),
        *final(placed_count) + count_unplaced(final(placed)@) == module@.len(),
        final(rt).classes.classes@.len() == n0 + 2 * *final(placed_count),
        changed ==> *final(placed_count) > *old(placed_count),
        !changed ==> *final(placed) == *old(placed) && *final(placed_count) == *old(placed_count),
        !changed ==> forall|m: int|
            0 <= m < module@.len() ==> (#[trigger] final(placed)@[m] is None ==> !super_ready(
                module@[m].super_class,
                final(placed)@,
                n0 as nat,
            )),
{
    let ghost o = rt.classes;
    let ghost start = *placed;
    let ghost start_count = *placed_count;
    let n = module.len();
    let mut changed = false;
    let mut i: usize = 0;
    while i < n
        invariant
            rt.wf(),
            rt.sels == old(rt).sels,
            rt.loaded == old(rt).loaded,
            o == old(rt).classes,
            start == *old(placed),
            start_count == *old(placed_count),
            n == module@.len(),
            n0 <= o.classes@.len(),
            rt.classes.registry == o.registry,
            keeps_records(o, rt.classes),
            forall|m: int| 0 <= m < n0 ==> #[trigger] rt.classes.classes@[m].info == o.classes@[m].info,
            forall|m: int| 0 <= m < module@.len() ==> compiled_bounded(#[trigger] module@[m], rt.sels.num_sels()),
            n0 + 2 * n <= usize::MAX,
            placement_ok(rt.classes, module@, placed@, n0 as nat),
            threading_ok(rt.classes, placed@),
            roots_ok(rt.classes, placed@),
            *placed_count + count_unplaced(placed@) == n,
            rt.classes.classes@.len() == n0 + 2 * *placed_count,
            i <= n,
            !changed ==> *placed == start && *placed_count == start_count,
            changed ==> *placed_count > start_count,
            !changed ==> forall|m: int|
                0 <= m < i ==> (#[trigger] placed@[m] is None ==> !super_ready(module@[m].super_class, placed@, n0 as nat)),
        decreases n - i,
    {
        if placed[i].is_none() {
            match resolve_super(module[i].super_class, placed, n0) {
                None => {},
                Some(sup) => {
                    let ghost t0 = rt.classes;
                    let ghost p0 = placed@;
                    proof {
                        lemma_count_unplaced_bound(p0);
                        lemma_count_unplaced_update(p0, i as int, ClassRef(0));
                        if let Some(ClassSource::Module(j)) = module@[i as int].super_class {
                            assert(p0[j as int] matches Some(cj) && loaded_as(t0, module@[j as int], super_of(module@[j as int].super_class, p0), cj));
                        }
                    }
                    let c = place_class(rt, &module[i], sup);
                    placed.set(i, Some(c));
                    *placed_count = *placed_count + 1;
                    changed = true;
                    proof {
                        let t1 = rt.classes;
                        lemma_count_unplaced_update(p0, i as int, c);
                        lemma_place_step(t0, t1, module@, p0, i as int, sup, c, n0 as nat);
                        lemma_place_threading(t0, t1, module@, p0, i as int, sup, c, n0 as nat);
                        lemma_place_roots(t0, t1, module@, p0, i as int, sup, c, n0 as nat);
                        lemma_keeps_records_trans(o, t0, t1);
                        assert forall|m: int| 0 <= m < n0 implies #[trigger] t1.classes@[m].info == o.classes@[m].info by {
                            assert(t1.classes@[m].info == t0.classes@[m].info);
                        }
                    }
                },
            }
        }
        i = i + 1;
    }
    changed
}

/// The invariant of the registration pass, after the entries before `i`.
pub open spec fn registration_ok(
    tp: ClassTable,
    t: ClassTable,
    module: Seq<CompiledClass>,
    placed: Seq<Option<ClassRef>>,
    n0: nat,
    i: int,
) -> bool {
    &&& keeps_records(tp, t)
    &&& t.classes@.len() == tp.classes@.len()
    &&& forall|k: int| 0 <= k < t.classes@.len() ==> (#[trigger] t.classes@[k]).subclass_list == tp.classes@[k].subclass_list
    &&& forall|m: int| 0 <= m < n0 ==> #[trigger] t.classes@[m].info == tp.classes@[m].info
    &&& forall|m: int|
        0 <= m < module.len() ==> (#[trigger] placed[m] matches Some(c) ==> t.classes@[c.0 as int].info == if m < i {
            module[m].cls.info | CLASS_REGISTERED
        } else {
            module[m].cls.info
        })
    &&& forall|m: int| 0 <= m < module.len() ==> (#[trigger] placed[m] matches Some(c) ==> t.classes@[c.0 + 1].info == tp.classes@[c.0 + 1].info)
    &&& forall|m: int|
        0 <= m < i ==> (#[trigger] placed[m] matches Some(c) ==> ((forall|j: int|
            m < j < i && placed[j] is Some ==> module[j].name@ != module[m].name@) ==> t.registry_lookup(module[m].name@) == Some(c)))
    &&& forall|nm: Seq<char>|
        (forall|m: int| 0 <= m < i && placed[m] is Some ==> module[m].name@ != nm) ==> #[trigger] t.registry_lookup(nm)
            == tp.registry_lookup(nm)
}

proof fn lemma_register_skip(
    tp: ClassTable,
    t: ClassTable,
    module: Seq<CompiledClass>,
    placed: Seq<Option<ClassRef>>,
    n0: nat,
    i: int,
)
    requires
        0 <= i < module.len(),
        placed.len() == module.len(),
        placed[i] is None,
        registration_ok(tp, t, module, placed, n0, i),
    ensures
        registration_ok(tp, t, module, placed, n0, i + 1),
{
    assert forall|m: int|
        0 <= m < i + 1 implies (#[trigger] placed[m] matches Some(c) ==> ((forall|j: int|
            m < j < i + 1 && placed[j] is Some ==> module[j].name@ != module[m].name@) ==> t.registry_lookup(module[m].name@)
            == Some(c))) by {
        if let Some(c) = placed[m] {
            assert(m != i);
            if forall|j: int| m < j < i + 1 && placed[j] is Some ==> module[j].name@ != module[m].name@ {
                assert(forall|j: int| m < j < i && placed[j] is Some ==> module[j].name@ != module[m].name@);
            }
        }
    }
    assert forall|nm: Seq<char>|
        (forall|m: int| 0 <= m < i + 1 && placed[m] is Some ==> module[m].name@ != nm) implies #[trigger] t.registry_lookup(nm)
            == tp.registry_lookup(nm) by {
        assert(forall|m: int| 0 <= m < i && placed[m] is Some ==> module[m].name@ != nm);
    }
    assert forall|m: int|
        0 <= m < module.len() implies (#[trigger] placed[m] matches Some(c) ==> t.classes@[c.0 as int].info == if m < i + 1 {
            module[m].cls.info | CLASS_REGISTERED
        } else {
            module[m].cls.info
        }) by {
        if placed[m] is Some {
            assert(m != i);
        }
    }
}

proof fn lemma_register_step(
    tp: ClassTable,
    t0: ClassTable,
    t1: ClassTable,
    module: Seq<CompiledClass>,
    placed: Seq<Option<ClassRef>>,
    n0: nat,
    i: int,
    c: ClassRef,
)
    requires
        0 <= i < module.len(),
        n0 <= tp.classes@.len(),
        placement_ok(tp, module, placed, n0),
        placed[i] == Some(c),
        registration_ok(tp, t0, module, placed, n0, i),
        t1.classes@.len() == t0.classes@.len(),
        ({
            let o = t0.classes@[c.0 as int];
            let f = t1.classes@[c.0 as int];
            &&& f.info == o.info | CLASS_REGISTERED
            &&& f.isa == o.isa
            &&& f.super_class == o.super_class
            &&& f.name == o.name
            &&& f.version == o.version
            &&& f.instance_size == o.instance_size
            &&& f.method_list == o.method_list
            &&& f.dtable == o.dtable
            &&& f.subclass_list == o.subclass_list
            &&& f.sibling_class == o.sibling_class
            &&& f.abi_version == o.abi_version
        }),
        forall|k: int| 0 <= k < t0.classes@.len() && k != c.0 ==> #[trigger] t1.classes@[k] == t0.classes@[k],
        t1.registry_lookup(t0.classes@[c.0 as int].name@) == Some(c),
        forall|other: Seq<char>|
            other != t0.classes@[c.0 as int].name@ ==> #[trigger] t1.registry_lookup(other) == t0.registry_lookup(other),
    ensures
        registration_ok(tp, t1, module, placed, n0, i + 1),
{
    assert(loaded_as(tp, module[i], super_of(module[i].super_class, placed), c));
    assert(t0.classes@[c.0 as int].name == tp.classes@[c.0 as int].name);
    assert(t0.classes@[c.0 as int].name@ == module[i].name@);
    assert(keeps_records(tp, t1)) by {
        assert forall|k: int| 0 <= k < tp.classes@.len() implies {
            let a = tp.classes@[k];
            let b = #[trigger] t1.classes@[k];
            &&& b.isa == a.isa
            &&& b.super_class == a.super_class
            &&& b.name == a.name
            &&& b.version == a.version
            &&& b.instance_size == a.instance_size
            &&& b.method_list == a.method_list
            &&& b.sibling_class == a.sibling_class
            &&& b.abi_version == a.abi_version
        } by {
            assert(t0.classes@[k].isa == tp.classes@[k].isa);
            if k != c.0 {
                assert(t1.classes@[k] == t0.classes@[k]);
            }
        }
    }
    assert forall|k: int| 0 <= k < t1.classes@.len() implies (#[trigger] t1.classes@[k]).subclass_list == tp.classes@[k].subclass_list by {
        assert(t0.classes@[k].subclass_list == tp.classes@[k].subclass_list);
        if k != c.0 {
            assert(t1.classes@[k] == t0.classes@[k]);
        }
    }
    assert forall|m: int| 0 <= m < n0 implies #[trigger] t1.classes@[m].info == tp.classes@[m].info by {
        assert(n0 <= c.0);
        assert(t1.classes@[m] == t0.classes@[m]);
    }
    assert forall|m: int|
        0 <= m < module.len() implies (#[trigger] placed[m] matches Some(cm) ==> t1.classes@[cm.0 as int].info == if m < i + 1 {
            module[m].cls.info | CLASS_REGISTERED
        } else {
            module[m].cls.info
        }) by {
        if let Some(cm) = placed[m] {
            if m != i {
                assert(placed[m] != placed[i]);
                assert(t1.classes@[cm.0 as int] == t0.classes@[cm.0 as int]);
            }
        }
    }
    assert forall|m: int| 0 <= m < module.len() implies (#[trigger] placed[m] matches Some(cm) ==> t1.classes@[cm.0 + 1].info
        == tp.classes@[cm.0 + 1].info) by {
        if let Some(cm) = placed[m] {
            assert(loaded_as(tp, module[m], super_of(module[m].super_class, placed), cm));
            if m != i {
                assert((placed[i]->0).0 != (placed[m]->0).0 + 1);
            }
            assert(cm.0 + 1 != c.0);
            assert(t1.classes@[cm.0 + 1] == t0.classes@[cm.0 + 1]);
        }
    }
    assert forall|m: int|
        0 <= m < i + 1 implies (#[trigger] placed[m] matches Some(cm) ==> ((forall|j: int|
            m < j < i + 1 && placed[j] is Some ==> module[j].name@ != module[m].name@) ==> t1.registry_lookup(module[m].name@)
            == Some(cm))) by {
        if m < i {
            if let Some(cm) = placed[m] {
                if forall|j: int| m < j < i + 1 && placed[j] is Some ==> module[j].name@ != module[m].name@ {
                    assert(module[i].name@ != module[m].name@);
                    assert(t0.registry_lookup(module[m].name@) == Some(cm));
                }
            }
        }
    }
    assert forall|nm: Seq<char>|
        (forall|m: int| 0 <= m < i + 1 && placed[m] is Some ==> module[m].name@ != nm) implies #[trigger] t1.registry_lookup(nm)
            == tp.registry_lookup(nm) by {
        assert(module[i].name@ != nm);
        assert(t0.registry_lookup(nm) == tp.registry_lookup(nm));
    }
}

/// Register the loaded entries of a module in the order of the entries.
fn register_placed(rt: &mut Runtime, module: &Vec<CompiledClass>, placed: &Vec<Option<ClassRef>>, n0: usize)
    requires
        old(rt).wf(),
        n0 <= old(rt).classes.classes@.len(),
        placement_ok(old(rt).classes, module@, placed@, n0 as nat),
    ensures
        final(rt).wf(),
        final(rt).sels == old(rt).sels,
        final(rt).loaded == old(rt).loaded,
        registration_ok(old(rt).classes, final(rt).classes, module@, placed@, n0 as nat, module@.len() as int),
{
    let ghost tp = rt.classes;
    let n = module.len();
    let mut i: usize = 0;
    proof {
        assert(keeps_records(tp, tp)) by {
            assert forall|k: int| 0 <= k < tp.classes@.len() implies {
                let a = tp.classes@[k];
                let b = #[trigger] tp.classes@[k];
                &&& b.isa == a.isa
            } by {}
        }
    }
    while i < n
        invariant
            rt.wf(),
            rt.sels == old(rt).sels,
            rt.loaded == old(rt).loaded,
            tp == old(rt).classes,
            n == module@.len(),
            n0 <= tp.classes@.len(),
            placement_ok(tp, module@, placed@, n0 as nat),
            i <= n,
            registration_ok(tp, rt.classes, module@, placed@, n0 as nat, i as int),
        decreases n - i,
    {
        let ghost t0 = rt.classes;
        match placed[i] {
            Some(c) => {
                proof {
                    assert(loaded_as(tp, module@[i as int], super_of(module@[i as int].super_class, placed@), c));
                }
                register_loaded_class(rt, c);
                proof {
                    lemma_register_step(tp, t0, rt.classes, module@, placed@, n0 as nat, i as int, c);
                }
            },
            None => {
                proof {
                    lemma_register_skip(tp, t0, module@, placed@, n0 as nat, i as int);
                }
            },
        }
        i = i + 1;
    }
}

/// What loading the class pairs of `module` into `t0` gives, with `placed`
/// the class each entry was loaded as: an entry is loaded exactly when its
/// superclass is available; a loaded entry is fixed up, registered and
/// threaded (once, by `lemma_threaded_once`), and a loaded root class's
/// metaclass stays out of its list of subclasses; earlier records are
/// kept; and the registry maps the names of the loaded entries (the last
/// of equal names) and keeps the others.
pub open spec fn module_loaded(t0: ClassTable, module: Seq<CompiledClass>, placed: Seq<Option<ClassRef>>, t1: ClassTable) -> bool {
    &&& placed.len() == module.len()
    &&& forall|i: int|
            0 <= i < module.len() ==> (#[trigger] placed[i] is Some <==> super_ready(
                module[i].super_class,
                placed,
                t0.classes@.len(),
            ))
    &&& forall|i: int|
            0 <= i < module.len() ==> (#[trigger] placed[i] matches Some(c) ==> {
                &&& loaded_as(t1, module[i], super_of(module[i].super_class, placed), c)
                &&& t1.classes@[c.0 as int].info == module[i].cls.info | CLASS_REGISTERED
            })
    &&& forall|i: int|
            0 <= i < module.len() ==> (#[trigger] placed[i] matches Some(c) ==> (super_of(module[i].super_class, placed)
                is Some ==> threaded(t1, c.0 as int) && threaded(t1, c.0 + 1)))
    &&& forall|i: int|
            0 <= i < module.len() ==> (#[trigger] placed[i] matches Some(c) ==> (super_of(module[i].super_class, placed)
                is None ==> subclasses_after_meta(t1, c.0 as int)))
    &&& keeps_records(t0, t1)
    &&& forall|k: int| 0 <= k < t0.classes@.len() ==> #[trigger] t1.classes@[k].info == t0.classes@[k].info
    &&& forall|i: int|
            0 <= i < module.len() ==> (#[trigger] placed[i] matches Some(c) ==> ((forall|j: int|
                i < j < module.len() && placed[j] is Some ==> module[j].name@ != module[i].name@) ==> t1.registry_lookup(
                module[i].name@,
            ) == Some(c)))
    &&& forall|nm: Seq<char>|
            (forall|i: int| 0 <= i < module.len() && placed[i] is Some ==> module[i].name@ != nm)
                ==> #[trigger] t1.registry_lookup(nm) == t0.registry_lookup(nm)
}

/// Load the class pairs of a compiled module; return, for each entry, the
/// class it was loaded as.
///
/// An entry is loaded once its superclass is available (a root, an already
/// loaded class, or a loaded entry of the module), so superclasses are
/// placed before their subclasses whatever the order of the entries; an
/// entry whose superclass chain never becomes available (a cycle, or a
/// reference outside the module) is not loaded.  A loaded class with a
/// superclass is threaded into its superclass's list of subclasses, and
/// its metaclass into the list of the metaclass's superclass.  Loaded
/// classes are then registered in the order of the entries.
pub fn load_classes(rt: &mut Runtime, module: &Vec<CompiledClass>) -> (placed: Vec<Option<ClassRef>>)
    requires
        old(rt).wf(),
        forall|i: int| 0 <= i < module@.len() ==> compiled_bounded(#[trigger] module@[i], old(rt).sels.num_sels()),
        old(rt).classes.classes@.len() + 2 * module@.len() <= usize::MAX,
    ensures
        final(rt).wf(),
        final(rt).sels == old(rt).sels,
        final(rt).loaded == old(rt).loaded,
        module_loaded(old(rt).classes, module@, placed@, final(rt).classes),
{
    let ghost o = rt.classes;
    let n = module.len();
    let n0 = rt.classes.classes.len();
    let mut placed: Vec<Option<ClassRef>> = Vec::new();
    let mut k: usize = 0;
    while k < n
        invariant
            k <= n,
            placed@.len() == k,
            forall|m: int| 0 <= m < k ==> #[trigger] placed@[m] is None,
        decreases n - k,
    {
        placed.push(None);
        k = k + 1;
    }
    proof {
        lemma_all_unplaced(placed@);
        assert forall|k: int| 0 <= k < o.classes@.len() implies {
            let a = o.classes@[k];
            let b = #[trigger] o.classes@[k];
            &&& b.isa == a.isa
        } by {}
    }
    let mut placed_count: usize = 0;
    loop
        invariant
            rt.wf(),
            rt.sels == old(rt).sels,
            rt.loaded == old(rt).loaded,
            n == module@.len(),
            n0 == o.classes@.len(),
            o == old(rt).classes,
            rt.classes.registry == o.registry,
            keeps_records(o, rt.classes),
            forall|m: int| 0 <= m < n0 ==> #[trigger] rt.classes.classes@[m].info == o.classes@[m].info,
            forall|m: int| 0 <= m < module@.len() ==> compiled_bounded(#[trigger] module@[m], rt.sels.num_sels()),
            n0 + 2 * n <= usize::MAX,
            placement_ok(rt.classes, module@, placed@, n0 as nat),
            threading_ok(rt.classes, placed@),
            roots_ok(rt.classes, placed@),
            placed_count + count_unplaced(placed@) == n,
            rt.classes.classes@.len() == n0 + 2 * placed_count,
        ensures
            rt.wf(),
            rt.sels == old(rt).sels,
            rt.loaded == old(rt).loaded,
            keeps_records(o, rt.classes),
            forall|m: int| 0 <= m < n0 ==> #[trigger] rt.classes.classes@[m].info == o.classes@[m].info,
            placement_ok(rt.classes, module@, placed@, n0 as nat),
            threading_ok(rt.classes, placed@),
            roots_ok(rt.classes, placed@),
            rt.classes.registry == o.registry,
            forall|i: int|
                0 <= i < module@.len() ==> (#[trigger] placed@[i] is None ==> !super_ready(
                    module@[i].super_class,
                    placed@,
                    n0 as nat,
                )),
        decreases n - placed_count,
    {
        let ghost t0 = rt.classes;
        let changed = place_round(rt, module, &mut placed, &mut placed_count, n0);
        proof {
            lemma_keeps_records_trans(o, t0, rt.classes);
            lemma_count_unplaced_bound(placed@);
        }
        if !changed {
            break;
        }
    }
    let ghost t1 = rt.classes;
    register_placed(rt, module, &placed, n0);
    proof {
        let t2 = rt.classes;
        lemma_keeps_records_trans(o, t1, t2);
        assert forall|x: int| 0 <= x < t1.classes@.len() && threaded(t1, x) implies #[trigger] threaded(t2, x) by {
            if let Some(sx) = t1.classes@[x].super_class {
                assert(t1.links_ok(x));
                assert(t2.classes@[x].super_class == t1.classes@[x].super_class);
                assert(t2.classes@[sx.0 as int].subclass_list == t1.classes@[sx.0 as int].subclass_list);
                assert(t1.links_ok(sx.0 as int));
                assert forall|k: int| 0 <= k < t1.classes@.len() implies (#[trigger] t2.classes@[k]).sibling_class
                    == t1.classes@[k].sibling_class by {}
                lemma_sibling_chain_kept(t1, t2, t1.classes@[sx.0 as int].subclass_list);
            }
        }
        assert forall|x: int| 0 <= x < t1.classes@.len() && subclasses_after_meta(t1, x) implies #[trigger] subclasses_after_meta(t2, x) by {
            assert(t1.links_ok(x));
            assert(t2.classes@[x].subclass_list == t1.classes@[x].subclass_list);
            assert forall|k: int| 0 <= k < t1.classes@.len() implies (#[trigger] t2.classes@[k]).sibling_class
                == t1.classes@[k].sibling_class by {}
            lemma_sibling_chain_kept(t1, t2, t1.classes@[x].subclass_list);
        }
        assert forall|i: int| 0 <= i < module@.len() implies (#[trigger] placed@[i] matches Some(c) ==> (super_of(
            module@[i].super_class,
            placed@,
        ) is None ==> subclasses_after_meta(t2, c.0 as int))) by {
            if let Some(c) = placed@[i] {
                assert(loaded_as(t1, module@[i], super_of(module@[i].super_class, placed@), c));
                if super_of(module@[i].super_class, placed@) is None {
                    assert(subclasses_after_meta(t1, c.0 as int));
                }
            }
        }
        assert forall|i: int| 0 <= i < module@.len() implies (#[trigger] placed@[i] matches Some(c) ==> (super_of(
            module@[i].super_class,
            placed@,
        ) is Some ==> threaded(t2, c.0 as int) && threaded(t2, c.0 + 1))) by {
            if let Some(c) = placed@[i] {
                assert(loaded_as(t1, module@[i], super_of(module@[i].super_class, placed@), c));
                if super_of(module@[i].super_class, placed@) is Some {
                    assert(threaded(t1, c.0 as int) && threaded(t1, c.0 + 1));
                    assert(threaded(t2, c.0 as int));
                    assert(threaded(t2, c.0 + 1));
                }
            }
        }
        assert forall|i: int| 0 <= i < module@.len() implies (#[trigger] placed@[i] matches Some(c) ==> {
            &&& loaded_as(t2, module@[i], super_of(module@[i].super_class, placed@), c)
            &&& t2.classes@[c.0 as int].info == module@[i].cls.info | CLASS_REGISTERED
        }) by {
            if let Some(c) = placed@[i] {
                assert(loaded_as(t1, module@[i], super_of(module@[i].super_class, placed@), c));
                lemma_loaded_as_kept(t1, t2, module@[i], super_of(module@[i].super_class, placed@), c);
            }
        }
        assert forall|i: int| 0 <= i < module@.len() implies (#[trigger] placed@[i] is Some <==> super_ready(
            module@[i].super_class,
            placed@,
            o.classes@.len(),
        )) by {}
    }
    placed
}

proof fn lemma_all_unplaced(placed: Seq<Option<ClassRef>>)
    requires
        forall|m: int| 0 <= m < placed.len() ==> #[trigger] placed[m] is None,
    ensures
        count_unplaced(placed) == placed.len(),
    decreases placed.len(),
{
    if placed.len() > 0 {
        lemma_all_unplaced(placed.drop_last());
    }
}

/// The first entry from position `j` on whose record is at address `a`.
pub open spec fn entry_at(entries: Seq<CompiledClass>, a: usize, j: int) -> Option<int>
    decreases entries.len() - j,
{
    if j < 0 || j >= entries.len() {
        None
    } else if entries[j].addr == a {
        Some(j)
    } else {
        entry_at(entries, a, j + 1)
    }
}

/// The class the record at address `a` was loaded as (the first listed
/// from position `j` on).
pub open spec fn loaded_at(loaded: Seq<(usize, ClassRef)>, a: usize, j: int) -> Option<ClassRef>
    decreases loaded.len() - j,
{
    if j < 0 || j >= loaded.len() {
        None
    } else if loaded[j].0 == a {
        Some(loaded[j].1)
    } else {
        loaded_at(loaded, a, j + 1)
    }
}

/// A superclass source with its address resolved: to the entry of
/// `entries` at that address, else to the class loaded from it; an address
/// that is neither stays as it is (and is not available).
pub open spec fn resolved(src: Option<ClassSource>, entries: Seq<CompiledClass>, loaded: Seq<(usize, ClassRef)>) -> Option<ClassSource> {
    match src {
        Some(ClassSource::Address(a)) => match entry_at(entries, a, 0) {
            Some(j) => Some(ClassSource::Module(j as usize)),
            None => match loaded_at(loaded, a, 0) {
                Some(c) => Some(ClassSource::Loaded(c)),
                None => src,
            },
        },
        _ => src,
    }
}

/// `e` with superclass source `s`.
pub open spec fn with_super(e: CompiledClass, s: Option<ClassSource>) -> CompiledClass {
    CompiledClass { addr: e.addr, name: e.name, super_class: s, cls: e.cls, meta: e.meta }
}

/// The entries with their superclass addresses resolved.
pub open spec fn resolved_module(entries: Seq<CompiledClass>, loaded: Seq<(usize, ClassRef)>) -> Seq<CompiledClass> {
    Seq::new(entries.len(), |i: int| with_super(entries[i], resolved(entries[i].super_class, entries, loaded)))
}

/// The record addresses and classes of the entries before position `k`
/// that were loaded, in order.
pub open spec fn loaded_upto(entries: Seq<CompiledClass>, placed: Seq<Option<ClassRef>>, k: int) -> Seq<(usize, ClassRef)>
    decreases k,
{
    if k <= 0 {
        Seq::empty()
    } else if let Some(c) = placed[k - 1] {
        loaded_upto(entries, placed, k - 1).push((entries[k - 1].addr, c))
    } else {
        loaded_upto(entries, placed, k - 1)
    }
}

/// The first position from `j` on of an entry whose record is at `a`.
fn find_entry(entries: &Vec<CompiledClass>, a: usize) -> (r: Option<usize>)
    ensures
        match r {
            Some(j) => entry_at(entries@, a, 0) == Some(j as int),
            None => entry_at(entries@, a, 0) is None,
        },
{
    let mut j: usize = 0;
    while j < entries.len()
        invariant
            j <= entries@.len(),
            entry_at(entries@, a, 0) == entry_at(entries@, a, j as int),
        decreases entries@.len() - j,
    {
        if entries[j].addr == a {
            return Some(j);
        }
        j = j + 1;
    }
    None
}

/// The class the record at `a` was loaded as, if any.
fn find_loaded(loaded: &Vec<(usize, ClassRef)>, a: usize) -> (r: Option<ClassRef>)
    ensures
        r == loaded_at(loaded@, a, 0),
{
    let mut j: usize = 0;
    while j < loaded.len()
        invariant
            j <= loaded@.len(),
            loaded_at(loaded@, a, 0) == loaded_at(loaded@, a, j as int),
        decreases loaded@.len() - j,
    {
        if loaded[j].0 == a {
            return Some(loaded[j].1);
        }
        j = j + 1;
    }
    None
}

/// Resolve a superclass source's address.
fn resolve_source(src: Option<ClassSource>, entries: &Vec<CompiledClass>, loaded: &Vec<(usize, ClassRef)>) -> (r: Option<ClassSource>)
    ensures
        r == resolved(src, entries@, loaded@),
{
    match src {
        Some(ClassSource::Address(a)) => match find_entry(entries, a) {
            Some(j) => Some(ClassSource::Module(j)),
            None => match find_loaded(loaded, a) {
                Some(c) => Some(ClassSource::Loaded(c)),
                None => src,
            },
        },
        _ => src,
    }
}

/// Every superclass address of the entries is that of an entry or of a
/// record loaded before: the caller hands over the records of all the
/// superclasses, as the linker resolves the superclass pointers of compiled
/// code.
pub open spec fn addresses_resolve(entries: Seq<CompiledClass>, loaded: Seq<(usize, ClassRef)>) -> bool {
    forall|i: int|
        0 <= i < entries.len() ==> (#[trigger] entries[i].super_class matches Some(ClassSource::Address(a)) ==> entry_at(
            entries,
            a,
            0,
        ) is Some || loaded_at(loaded, a, 0) is Some)
}

/// Load the class pairs of a module, whose superclasses are named by the
/// address of their compiled record; return, for each entry, the class it
/// was loaded as.
///
/// Each address is resolved to an entry of the module or to a record loaded
/// before, and the entries are loaded as `load_classes` does: every entry
/// whose superclass chain is free of cycles is loaded, fixed up, threaded
/// and registered by this call (`lemma_all_loaded`).  The records loaded
/// are remembered by address.
pub fn load_module(rt: &mut Runtime, module: Vec<CompiledClass>) -> (placed: Vec<Option<ClassRef>>)
    requires
        old(rt).wf(),
        forall|i: int| 0 <= i < module@.len() ==> #[trigger] entry_ok(module@[i], old(rt).sels.num_sels()),
        addresses_resolve(module@, old(rt).loaded@),
        old(rt).classes.classes@.len() + 2 * module@.len() <= usize::MAX,
    ensures
        final(rt).wf(),
        final(rt).sels == old(rt).sels,
        module_loaded(old(rt).classes, resolved_module(module@, old(rt).loaded@), placed@, final(rt).classes),
        final(rt).loaded@ == old(rt).loaded@ + loaded_upto(module@, placed@, placed@.len() as int),
{
    let ghost e0 = module@;
    let ghost l0 = old(rt).loaded@;
    let ghost num = old(rt).sels.num_sels();
    let mut entries = module;
    let n = entries.len();
    let mut sources: Vec<Option<ClassSource>> = Vec::new();
    let mut i: usize = 0;
    while i < n
        invariant
            n == entries@.len(),
            i <= n,
            sources@.len() == i,
            forall|k: int| 0 <= k < i ==> #[trigger] sources@[k] == resolved(e0[k].super_class, e0, l0),
            entries@ == e0,
            rt.loaded@ == l0,
        decreases n - i,
    {
        let s = resolve_source(entries[i].super_class, &entries, &rt.loaded);
        sources.push(s);
        i = i + 1;
    }
    let mut i: usize = 0;
    while i < n
        invariant
            n == entries@.len(),
            n == e0.len(),
            i <= n,
            sources@.len() == n,
            forall|k: int| 0 <= k < n ==> #[trigger] sources@[k] == resolved(e0[k].super_class, e0, l0),
            forall|k: int| 0 <= k < i ==> #[trigger] entries@[k] == with_super(e0[k], sources@[k]),
            forall|k: int| i <= k < n ==> #[trigger] entries@[k] == e0[k],
        decreases n - i,
    {
        let s = sources[i];
        entries[i].super_class = s;
        i = i + 1;
    }
    let ghost r0 = entries@;
    proof {
        assert(r0 =~= resolved_module(e0, l0));
        assert forall|k: int| 0 <= k < r0.len() implies compiled_bounded(#[trigger] r0[k], rt.sels.num_sels()) by {
            assert(entry_ok(e0[k], num));
        }
    }
    let mut seen: Vec<(usize, ClassRef)> = Vec::new();
    std::mem::swap(&mut seen, &mut rt.loaded);
    let placed = load_classes(rt, &entries);
    rt.loaded = seen;
    let ghost t1 = rt.classes;
    proof {
        assert forall|j: int| 0 <= j < n implies (#[trigger] placed@[j] matches Some(c) ==> c.0 < t1.classes@.len()) by {
            if let Some(c) = placed@[j] {
                assert(loaded_as(t1, r0[j], super_of(r0[j].super_class, placed@), c));
            }
        }
        assert forall|j: int| 0 <= j < rt.loaded@.len() implies (#[trigger] rt.loaded@[j]).1.0 < t1.classes@.len() by {
            assert(old(rt).loaded@[j].1.0 < old(rt).classes.classes@.len());
            assert(keeps_records(old(rt).classes, t1));
        }
    }
    let mut k: usize = 0;
    while k < n
        invariant
            n == e0.len(),
            n == r0.len(),
            placed@.len() == n,
            forall|j: int| 0 <= j < n ==> (#[trigger] placed@[j] matches Some(c) ==> c.0 < t1.classes@.len()),
            k <= n,
            rt.loaded@ == l0 + loaded_upto(e0, placed@, k as int),
            forall|j: int| 0 <= j < rt.loaded@.len() ==> (#[trigger] rt.loaded@[j]).1.0 < t1.classes@.len(),
            rt.classes == t1,
            rt.sels == old(rt).sels,
            entries@ == r0,
            forall|j: int| 0 <= j < n ==> #[trigger] r0[j].addr == e0[j].addr,
        decreases n - k,
    {
        match placed[k] {
            Some(c) => {
                rt.loaded.push((entries[k].addr, c));
                proof {
                    assert(rt.loaded@ =~= l0 + loaded_upto(e0, placed@, k + 1));
                }
            },
            None => {},
        }
        k = k + 1;
    }
    placed
}

/// The depth of each entry in a superclass chain free of cycles: an
/// entry's superclass entry is less deep.
pub open spec fn depths_ok(entries: Seq<CompiledClass>, depth: Seq<nat>) -> bool {
    &&& depth.len() == entries.len()
    &&& forall|i: int|
        0 <= i < entries.len() ==> (#[trigger] entries[i].super_class matches Some(ClassSource::Module(j)) ==> j < entries.len()
            && depth[j as int] < depth[i])
}

/// When every superclass is available or is an entry, and the superclass
/// chains are free of cycles, loading loads every entry.
pub proof fn lemma_all_loaded(
    t0: ClassTable,
    entries: Seq<CompiledClass>,
    placed: Seq<Option<ClassRef>>,
    t1: ClassTable,
    depth: Seq<nat>,
)
    requires
        module_loaded(t0, entries, placed, t1),
        depths_ok(entries, depth),
        forall|i: int|
            0 <= i < entries.len() ==> match #[trigger] entries[i].super_class {
                Some(ClassSource::Loaded(c)) => c.0 < t0.classes@.len(),
                Some(ClassSource::Address(_)) => false,
                _ => true,
            },
    ensures
        forall|i: int| 0 <= i < entries.len() ==> #[trigger] placed[i] is Some,
{
    assert forall|i: int| 0 <= i < entries.len() implies #[trigger] placed[i] is Some by {
        lemma_loaded_at_depth(t0, entries, placed, t1, depth, i);
    }
}

proof fn lemma_loaded_at_depth(
    t0: ClassTable,
    entries: Seq<CompiledClass>,
    placed: Seq<Option<ClassRef>>,
    t1: ClassTable,
    depth: Seq<nat>,
    i: int,
)
    requires
        module_loaded(t0, entries, placed, t1),
        depths_ok(entries, depth),
        forall|k: int|
            0 <= k < entries.len() ==> match #[trigger] entries[k].super_class {
                Some(ClassSource::Loaded(c)) => c.0 < t0.classes@.len(),
                Some(ClassSource::Address(_)) => false,
                _ => true,
            },
        0 <= i < entries.len(),
    ensures
        placed[i] is Some,
    decreases depth[i],
{
    match entries[i].super_class {
        Some(ClassSource::Module(j)) => {
            lemma_loaded_at_depth(t0, entries, placed, t1, depth, j as int);
        },
        _ => {},
    }
    assert(placed[i] is Some <==> super_ready(entries[i].super_class, placed, t0.classes@.len()));
}

proof fn lemma_entry_at_in_range(entries: Seq<CompiledClass>, a: usize, j: int)
    requires
        0 <= j,
    ensures
        entry_at(entries, a, j) matches Some(k) ==> j <= k < entries.len() && entries[k].addr == a,
    decreases entries.len() - j,
{
    if j < entries.len() {
        lemma_entry_at_in_range(entries, a, j + 1);
    }
}

/// Loading a module whose superclasses are all handed over (every address
/// is that of an entry or of a loaded record) loads every entry whose
/// superclass chain is free of cycles: no class is left out.
pub proof fn lemma_module_all_loaded(
    t0: ClassTable,
    module: Seq<CompiledClass>,
    loaded: Seq<(usize, ClassRef)>,
    placed: Seq<Option<ClassRef>>,
    t1: ClassTable,
    depth: Seq<nat>,
)
    requires
        module_loaded(t0, resolved_module(module, loaded), placed, t1),
        addresses_resolve(module, loaded),
        forall|i: int| 0 <= i < loaded.len() ==> (#[trigger] loaded[i]).1.0 < t0.classes@.len(),
        forall|i: int|
            0 <= i < module.len() ==> match #[trigger] module[i].super_class {
                Some(ClassSource::Loaded(c)) => c.0 < t0.classes@.len(),
                Some(ClassSource::Module(_)) => false,
                _ => true,
            },
        depths_ok(resolved_module(module, loaded), depth),
    ensures
        forall|i: int| 0 <= i < module.len() ==> #[trigger] placed[i] is Some,
{
    lemma_resolved_sources(t0.classes@.len(), module, loaded);
    lemma_all_loaded(t0, resolved_module(module, loaded), placed, t1, depth);
}

proof fn lemma_resolved_sources(n: nat, module: Seq<CompiledClass>, loaded: Seq<(usize, ClassRef)>)
    requires
        addresses_resolve(module, loaded),
        forall|i: int| 0 <= i < loaded.len() ==> (#[trigger] loaded[i]).1.0 < n,
        forall|i: int|
            0 <= i < module.len() ==> match #[trigger] module[i].super_class {
                Some(ClassSource::Loaded(c)) => c.0 < n,
                Some(ClassSource::Module(_)) => false,
                _ => true,
            },
    ensures
        forall|k: int|
            0 <= k < resolved_module(module, loaded).len() ==> match #[trigger] resolved_module(module, loaded)[k].super_class {
                Some(ClassSource::Loaded(c)) => c.0 < n,
                Some(ClassSource::Address(_)) => false,
                _ => true,
            },
{
    let r = resolved_module(module, loaded);
    assert forall|k: int|
        0 <= k < r.len() implies match #[trigger] r[k].super_class {
            Some(ClassSource::Loaded(c)) => c.0 < n,
            Some(ClassSource::Address(_)) => false,
            _ => true,
        } by {
        assert(r[k].super_class == resolved(module[k].super_class, module, loaded));
        if let Some(ClassSource::Address(a)) = module[k].super_class {
            lemma_entry_at_in_range(module, a, 0);
            lemma_loaded_at_valid(loaded, a, 0, n);
        }
    }
}

proof fn lemma_loaded_at_valid(loaded: Seq<(usize, ClassRef)>, a: usize, j: int, n: nat)
    requires
        0 <= j,
        forall|i: int| 0 <= i < loaded.len() ==> (#[trigger] loaded[i]).1.0 < n,
    ensures
        loaded_at(loaded, a, j) matches Some(c) ==> c.0 < n,
    decreases loaded.len() - j,
{
    if j < loaded.len() {
        lemma_loaded_at_valid(loaded, a, j + 1, n);
    }
}

proof fn lemma_loaded_at_from(loaded: Seq<(usize, ClassRef)>, a: usize, j: int)
    requires
        0 <= j,
    ensures
        loaded_at(loaded, a, j) matches Some(c) ==> exists|k: int| j <= k < loaded.len() && loaded[k] == (a, c),
        loaded_at(loaded, a, j) is None ==> forall|k: int| j <= k < loaded.len() ==> (#[trigger] loaded[k]).0 != a,
    decreases loaded.len() - j,
{
    if j < loaded.len() {
        lemma_loaded_at_from(loaded, a, j + 1);
        if loaded[j].0 == a {
            assert(loaded[j] == (a, loaded[j].1));
        }
    }
}

/// A superclass address resolves to a class loaded from exactly that
/// address, and to none when no record was loaded from it.
pub proof fn lemma_loaded_at_exact(loaded: Seq<(usize, ClassRef)>, a: usize)
    ensures
        loaded_at(loaded, a, 0) matches Some(c) ==> exists|k: int| 0 <= k < loaded.len() && loaded[k] == (a, c),
        loaded_at(loaded, a, 0) is None ==> forall|k: int| 0 <= k < loaded.len() ==> (#[trigger] loaded[k]).0 != a,
{
    lemma_loaded_at_from(loaded, a, 0);
}

proof fn lemma_entry_at_from(entries: Seq<CompiledClass>, a: usize, j: int)
    requires
        0 <= j,
    ensures
        entry_at(entries, a, j) matches Some(k) ==> j <= k < entries.len() && entries[k].addr == a && forall|m: int|
            j <= m < k ==> (#[trigger] entries[m]).addr != a,
        entry_at(entries, a, j) is None ==> forall|m: int| j <= m < entries.len() ==> (#[trigger] entries[m]).addr != a,
    decreases entries.len() - j,
{
    if j < entries.len() {
        lemma_entry_at_from(entries, a, j + 1);
    }
}

/// A superclass address resolves to the first entry whose record is at
/// exactly that address, and to none when no entry is.
pub proof fn lemma_entry_at_exact(entries: Seq<CompiledClass>, a: usize)
    ensures
        entry_at(entries, a, 0) matches Some(k) ==> 0 <= k < entries.len() && entries[k].addr == a && forall|m: int|
            0 <= m < k ==> (#[trigger] entries[m]).addr != a,
        entry_at(entries, a, 0) is None ==> forall|m: int| 0 <= m < entries.len() ==> (#[trigger] entries[m]).addr != a,
{
    lemma_entry_at_from(entries, a, 0);
}

/// A class loaded by `load_module` whose superclass is named by address
/// has as superclass a class loaded from exactly that address: an entry of
/// the module at that address, or a record loaded before from it.
pub proof fn lemma_super_from_that_address(
    t0: ClassTable,
    module: Seq<CompiledClass>,
    loaded: Seq<(usize, ClassRef)>,
    placed: Seq<Option<ClassRef>>,
    t1: ClassTable,
    i: int,
    a: usize,
)
    requires
        module_loaded(t0, resolved_module(module, loaded), placed, t1),
        module.len() <= usize::MAX,
        0 <= i < module.len(),
        placed[i] is Some,
        module[i].super_class == Some(ClassSource::Address(a)),
    ensures
        exists|c: ClassRef|
            t1.classes@[(placed[i]->0).0 as int].super_class == Some(c) && ((exists|k: int|
                0 <= k < loaded.len() && loaded[k] == (a, c)) || (exists|j: int|
                0 <= j < module.len() && module[j].addr == a && placed[j] == Some(c))),
{
    let r = resolved_module(module, loaded);
    let ci = placed[i]->0;
    assert(r[i].super_class == resolved(module[i].super_class, module, loaded));
    assert(placed[i] is Some ==> super_ready(r[i].super_class, placed, t0.classes@.len()));
    assert(loaded_as(t1, r[i], super_of(r[i].super_class, placed), ci));
    lemma_entry_at_exact(module, a);
    lemma_loaded_at_exact(loaded, a);
    let c = t1.classes@[ci.0 as int].super_class->0;
    match entry_at(module, a, 0) {
        Some(j) => {
            assert(module[j].addr == a && placed[j] == Some(c));
        },
        None => {
            let k = choose|k: int| 0 <= k < loaded.len() && loaded[k] == (a, loaded_at(loaded, a, 0)->0);
            assert(loaded[k] == (a, c));
        },
    }
}

/// The root found for a class is a class of its superclass chain with no
/// superclass.
pub proof fn lemma_root_of_is_root(t: ClassTable, c: int)
    requires
        t.wf(),
        0 <= c < t.classes@.len(),
    ensures
        0 <= root_of(t, c) <= c,
        t.classes@[root_of(t, c)].super_class is None,
        crate::coherence::in_chain(t, c, root_of(t, c)),
    decreases c,
{
    assert(t.links_ok(c));
    if let Some(s) = t.classes@[c].super_class {
        lemma_root_of_is_root(t, s.0 as int);
    }
}

/// A loaded class pair with a superclass has as metaclass's metaclass the
/// metaclass of the root of its hierarchy: the class at the top of the
/// superclass chain, whatever its depth.
pub proof fn lemma_loaded_meta_isa_is_root_meta(t: ClassTable, cc: CompiledClass, s: ClassRef, c: ClassRef)
    requires
        t.wf(),
        loaded_as(t, cc, Some(s), c),
    ensures
        exists|r: int|
            0 <= r <= s.0 && t.classes@[r].super_class is None && crate::coherence::in_chain(t, s.0 as int, r)
                && t.classes@[c.0 + 1].isa == t.classes@[r].isa,
{
    lemma_root_of_is_root(t, s.0 as int);
    let r = root_of(t, s.0 as int);
    assert(t.classes@[c.0 + 1].isa == t.classes@[r].isa);
}

/// Patching a compiled instance size gives its magnitude: a size that is
/// never negative, the same size when it was not negative, and the same
/// magnitude otherwise; a root class declaring none gets an object header.
pub proof fn lemma_patched_size_magnitude(size: i64, is_root: bool)
    requires
        size != i64::MIN,
    ensures
        patched_size(size) >= 0,
        size >= 0 ==> patched_size(size) == size,
        patched_size(size) == size || patched_size(size) + size == 0,
        patched_class_size(size, is_root) >= 0,
        is_root ==> patched_class_size(size, is_root) > 0,
        size != 0 ==> patched_class_size(size, is_root) == patched_size(size),
{
}

/// Every loaded class and metaclass has a non-negative instance size, the
/// magnitude of its compiled one (an object header for a root class that
/// declares none).
pub proof fn lemma_loaded_sizes(t: ClassTable, cc: CompiledClass, sup: Class, c: ClassRef)
    requires
        loaded_as(t, cc, sup, c),
        cc.cls.instance_size != i64::MIN,
        cc.meta.instance_size != i64::MIN,
    ensures
        t.classes@[c.0 as int].instance_size >= 0,
        t.classes@[c.0 + 1].instance_size >= 0,
        t.classes@[c.0 + 1].instance_size == cc.meta.instance_size || t.classes@[c.0 + 1].instance_size + cc.meta.instance_size == 0,
        cc.cls.instance_size != 0 ==> (t.classes@[c.0 as int].instance_size == cc.cls.instance_size
            || t.classes@[c.0 as int].instance_size + cc.cls.instance_size == 0),
        cc.cls.instance_size >= 0 && (cc.cls.instance_size != 0 || sup is Some) ==> t.classes@[c.0 as int].instance_size
            == cc.cls.instance_size,
{
    lemma_patched_size_magnitude(cc.cls.instance_size, sup is None);
    lemma_patched_size_magnitude(cc.meta.instance_size, false);
}

} // verus!
