use o3jc::class_registry::{
    class_get_instance_method, class_replace_method, method_exchange_implementations,
    method_get_implementation, objc_allocate_class_pair, objc_get_class_str, objc_register_class_pair, Runtime,
};
use o3jc::method_cache::{flush_all_caches, flush_class_cache_tree};
use o3jc::msg_send::{class_lookup_method, objc_msg_lookup, objc_msg_lookup_nonnull};
use o3jc::sel::sel_register_name_str;
use o3jc::types::{ClassRef, ObjcObject, CLASS_IS_METACLASS, CLASS_REGISTERED};

const TYPES: usize = 0x1000;

fn instance(cls: ClassRef) -> Option<ObjcObject> {
    Some(ObjcObject { isa: cls })
}

#[test]
fn class_allocate_and_find() {
    let mut rt = Runtime::new();
    let cls = objc_allocate_class_pair(&mut rt, None, "FindMeClass", 0);
    assert!(
        objc_get_class_str(&rt.classes, "FindMeClass").is_none(),
        "class must not be visible before registration"
    );
    objc_register_class_pair(&mut rt, cls);
    assert_eq!(
        objc_get_class_str(&rt.classes, "FindMeClass"),
        Some(cls),
        "registered class must be retrievable by name"
    );
}

#[test]
fn class_creation() {
    let mut rt = Runtime::new();
    let cls = objc_allocate_class_pair(&mut rt, None, "Created", 0);
    objc_register_class_pair(&mut rt, cls);
    assert_eq!(objc_get_class_str(&rt.classes, "Created"), Some(cls));
}

#[test]
fn class_invisible() {
    let mut rt = Runtime::new();
    let cls = objc_allocate_class_pair(&mut rt, None, "Invisible", 0);
    assert!(objc_get_class_str(&rt.classes, "Invisible").is_none());
    assert!(objc_get_class_str(&rt.classes, "Nonexistent").is_none());
    objc_register_class_pair(&mut rt, cls);
    assert!(objc_get_class_str(&rt.classes, "Nonexistent").is_none());
}

#[test]
fn allocate_builds_class_and_metaclass() {
    let mut rt = Runtime::new();
    let root = objc_allocate_class_pair(&mut rt, None, "Root", 0);
    assert_eq!(root, ClassRef(0));
    let root_meta = ClassRef(1);
    assert_eq!(rt.classes.classes[0].isa, Some(root_meta));
    assert_eq!(rt.classes.classes[1].info, CLASS_IS_METACLASS);
    assert_eq!(rt.classes.classes[1].instance_size, 136);
    assert_eq!(rt.classes.classes[0].instance_size, 8);
    assert_eq!(rt.classes.classes[1].isa, Some(root_meta), "the root metaclass is its own metaclass");
    assert_eq!(rt.classes.classes[1].super_class, Some(root), "the root metaclass inherits from the root class");
    let child = objc_allocate_class_pair(&mut rt, Some(root), "Child", 0);
    assert_eq!(child, ClassRef(2));
    assert_eq!(rt.classes.classes[2].super_class, Some(root));
    assert_eq!(rt.classes.classes[3].super_class, Some(root_meta), "metaclass super is the super's metaclass");
    assert_eq!(rt.classes.classes[3].isa, Some(root_meta), "every metaclass's metaclass is the root metaclass");
    assert_eq!(rt.classes.classes[0].subclass_list, Some(child));
    let child2 = objc_allocate_class_pair(&mut rt, Some(root), "Child2", 0);
    assert_eq!(rt.classes.classes[0].subclass_list, Some(child2));
    assert_eq!(rt.classes.classes[child2.0].sibling_class, Some(child));
    assert_eq!(root.subclasses(&rt.classes), vec![child2, child]);
    assert_eq!(child2.ancestors(&rt.classes), vec![child2, root]);
    assert_eq!(child.superclass(&rt.classes), Some(root));
    let grandchild = objc_allocate_class_pair(&mut rt, Some(child), "Grandchild", 0);
    assert_eq!(rt.classes.classes[grandchild.0 + 1].isa, Some(root_meta));
    assert_eq!(rt.classes.classes[grandchild.0 + 1].super_class, Some(ClassRef(child.0 + 1)));
}

#[test]
fn register_sets_flag_and_replaces_by_name() {
    let mut rt = Runtime::new();
    let a = objc_allocate_class_pair(&mut rt, None, "Same", 0);
    let b = objc_allocate_class_pair(&mut rt, None, "Same", 0);
    objc_register_class_pair(&mut rt, a);
    assert_eq!(rt.classes.classes[a.0].info & CLASS_REGISTERED, CLASS_REGISTERED);
    objc_register_class_pair(&mut rt, b);
    assert_eq!(objc_get_class_str(&rt.classes, "Same"), Some(b));
    assert_eq!(rt.classes.registry.len(), 1);
}

#[test]
fn class_add_method() {
    let mut rt = Runtime::new();
    let sel = sel_register_name_str(&mut rt.sels, "m");
    let cls = objc_allocate_class_pair(&mut rt, None, "AddMethod", 0);
    let first = o3jc::class_registry::class_add_method(&mut rt, cls, sel, 0x10, TYPES);
    let second = o3jc::class_registry::class_add_method(&mut rt, cls, sel, 0x20, TYPES);
    assert_eq!((first, second), (true, false));
}

#[test]
fn direct_method_dispatch() {
    let mut rt = Runtime::new();
    let sel = sel_register_name_str(&mut rt.sels, "directMethod");
    let cls = objc_allocate_class_pair(&mut rt, None, "DirectClass", 0);
    assert!(o3jc::class_registry::class_add_method(&mut rt, cls, sel, 0x1234, TYPES), "first addMethod must succeed");
    assert!(!o3jc::class_registry::class_add_method(&mut rt, cls, sel, 0x1234, TYPES), "duplicate addMethod must return false");
    objc_register_class_pair(&mut rt, cls);
    let found = objc_msg_lookup(&mut rt, instance(cls), sel);
    assert!(found.is_some(), "IMP must be found for registered method");
    assert_eq!(found, Some(0x1234));
}

#[test]
fn inherited_method_dispatch() {
    let mut rt = Runtime::new();
    let sel = sel_register_name_str(&mut rt.sels, "inheritedMethod");
    let parent = objc_allocate_class_pair(&mut rt, None, "InheritParent", 0);
    o3jc::class_registry::class_add_method(&mut rt, parent, sel, 0xAAA, TYPES);
    objc_register_class_pair(&mut rt, parent);
    let child = objc_allocate_class_pair(&mut rt, Some(parent), "InheritChild", 0);
    objc_register_class_pair(&mut rt, child);
    let found = objc_msg_lookup(&mut rt, instance(child), sel);
    assert!(found.is_some(), "inherited IMP must be found via superclass walk");
    assert_eq!(found, Some(0xAAA));
}

#[test]
fn subclass_inherits() {
    let mut rt = Runtime::new();
    let sel = sel_register_name_str(&mut rt.sels, "greet");
    let a = objc_allocate_class_pair(&mut rt, None, "A", 0);
    o3jc::class_registry::class_add_method(&mut rt, a, sel, 7, TYPES);
    objc_register_class_pair(&mut rt, a);
    let b = objc_allocate_class_pair(&mut rt, Some(a), "B", 0);
    objc_register_class_pair(&mut rt, b);
    let c = objc_allocate_class_pair(&mut rt, Some(b), "C", 0);
    objc_register_class_pair(&mut rt, c);
    assert_eq!(class_lookup_method(&rt, c, sel), Some(7));
    assert_eq!(objc_msg_lookup(&mut rt, instance(c), sel), Some(7));
}

#[test]
fn null_receiver_returns_null_imp() {
    let mut rt = Runtime::new();
    let sel = sel_register_name_str(&mut rt.sels, "anyMethod");
    let imp = objc_msg_lookup(&mut rt, None, sel);
    assert!(imp.is_none(), "null receiver must yield null IMP");
}

#[test]
fn null_receiver() {
    let mut rt = Runtime::new();
    let sel = sel_register_name_str(&mut rt.sels, "foo");
    let cls = objc_allocate_class_pair(&mut rt, None, "Nil", 0);
    o3jc::class_registry::class_add_method(&mut rt, cls, sel, 1, TYPES);
    objc_register_class_pair(&mut rt, cls);
    assert_eq!(objc_msg_lookup(&mut rt, None, sel), None);
}

#[test]
fn unknown_selector() {
    let mut rt = Runtime::new();
    let known = sel_register_name_str(&mut rt.sels, "known");
    let unknown = sel_register_name_str(&mut rt.sels, "unknown");
    let cls = objc_allocate_class_pair(&mut rt, None, "Unknown", 0);
    o3jc::class_registry::class_add_method(&mut rt, cls, known, 1, TYPES);
    objc_register_class_pair(&mut rt, cls);
    assert_eq!(objc_msg_lookup(&mut rt, instance(cls), unknown), None);
    assert_eq!(rt.classes.classes[cls.0].dtable.as_ref().unwrap().entries.len(), 0, "a miss is not cached");
}

#[test]
fn msg_lookup_slow() {
    let mut rt = Runtime::new();
    let sel = sel_register_name_str(&mut rt.sels, "slow");
    let cls = objc_allocate_class_pair(&mut rt, None, "Slow", 0);
    o3jc::class_registry::class_add_method(&mut rt, cls, sel, 99, TYPES);
    objc_register_class_pair(&mut rt, cls);
    assert_eq!(class_lookup_method(&rt, cls, sel), Some(99));
    assert_eq!(objc_msg_lookup(&mut rt, instance(cls), sel), Some(99));
}

#[test]
fn imp_returns_self() {
    let mut rt = Runtime::new();
    let sel = sel_register_name_str(&mut rt.sels, "self");
    let cls = objc_allocate_class_pair(&mut rt, None, "Selfish", 0);
    o3jc::class_registry::class_add_method(&mut rt, cls, sel, 0x5E1F, TYPES);
    objc_register_class_pair(&mut rt, cls);
    assert_eq!(objc_msg_lookup_nonnull(&mut rt, ObjcObject { isa: cls }, sel), 0x5E1F);
}

#[test]
fn child_overrides_parent_method() {
    let mut rt = Runtime::new();
    let sel = sel_register_name_str(&mut rt.sels, "overriddenMethod");
    let parent = objc_allocate_class_pair(&mut rt, None, "OverrideParent", 0);
    o3jc::class_registry::class_add_method(&mut rt, parent, sel, 0x1, TYPES);
    objc_register_class_pair(&mut rt, parent);
    let child = objc_allocate_class_pair(&mut rt, Some(parent), "OverrideChild", 0);
    o3jc::class_registry::class_add_method(&mut rt, child, sel, 0x2, TYPES);
    objc_register_class_pair(&mut rt, child);
    let found = objc_msg_lookup(&mut rt, instance(child), sel);
    assert!(found.is_some());
    assert_eq!(found, Some(0x2), "child override must be called");
    assert_ne!(found, Some(0x1), "parent impl must not be called when child overrides");
}

#[test]
fn cache_hit_after_first_dispatch() {
    let mut rt = Runtime::new();
    let sel = sel_register_name_str(&mut rt.sels, "cachedMethod");
    let cls = objc_allocate_class_pair(&mut rt, None, "CacheTestClass", 0);
    o3jc::class_registry::class_add_method(&mut rt, cls, sel, 0xC0DE, TYPES);
    objc_register_class_pair(&mut rt, cls);
    let found1 = objc_msg_lookup(&mut rt, instance(cls), sel);
    assert!(found1.is_some());
    assert_eq!(rt.classes.classes[cls.0].dtable.as_ref().unwrap().entries, vec![(sel, 0xC0DE)]);
    let found2 = objc_msg_lookup(&mut rt, instance(cls), sel);
    assert_eq!(found1, found2, "cached and uncached lookups must return the same IMP");
}

#[test]
fn cache_hit() {
    let mut rt = Runtime::new();
    let sel = sel_register_name_str(&mut rt.sels, "hit");
    let cls = objc_allocate_class_pair(&mut rt, None, "Hit", 0);
    o3jc::class_registry::class_add_method(&mut rt, cls, sel, 5, TYPES);
    objc_register_class_pair(&mut rt, cls);
    for _ in 0..3 {
        assert_eq!(objc_msg_lookup(&mut rt, instance(cls), sel), Some(5));
    }
    assert_eq!(rt.classes.classes[cls.0].dtable.as_ref().unwrap().entries.len(), 1);
}

#[test]
fn inherited_lookup_fills_receivers_cache() {
    let mut rt = Runtime::new();
    let sel = sel_register_name_str(&mut rt.sels, "m");
    let parent = objc_allocate_class_pair(&mut rt, None, "P", 0);
    o3jc::class_registry::class_add_method(&mut rt, parent, sel, 3, TYPES);
    objc_register_class_pair(&mut rt, parent);
    let child = objc_allocate_class_pair(&mut rt, Some(parent), "K", 0);
    objc_register_class_pair(&mut rt, child);
    objc_msg_lookup(&mut rt, instance(child), sel);
    assert_eq!(rt.classes.classes[child.0].dtable.as_ref().unwrap().entries, vec![(sel, 3)]);
    assert_eq!(rt.classes.classes[parent.0].dtable.as_ref().unwrap().entries.len(), 0);
}

#[test]
fn method_swizzle_works() {
    let mut rt = Runtime::new();
    let sel_a = sel_register_name_str(&mut rt.sels, "swizzleA");
    let sel_b = sel_register_name_str(&mut rt.sels, "swizzleB");
    let cls = objc_allocate_class_pair(&mut rt, None, "SwizzleClass", 0);
    o3jc::class_registry::class_add_method(&mut rt, cls, sel_a, 0xA, TYPES);
    o3jc::class_registry::class_add_method(&mut rt, cls, sel_b, 0xB, TYPES);
    objc_register_class_pair(&mut rt, cls);
    let _ = objc_msg_lookup(&mut rt, instance(cls), sel_a);
    let m_a = class_get_instance_method(&rt, Some(cls), sel_a);
    let m_b = class_get_instance_method(&rt, Some(cls), sel_b);
    assert!(m_a.is_some() && m_b.is_some());
    method_exchange_implementations(&mut rt, m_a.unwrap(), m_b.unwrap());
    let found = objc_msg_lookup(&mut rt, instance(cls), sel_a);
    assert!(found.is_some());
    assert_eq!(found, Some(0xB), "swizzle_b must be called via sel_a after exchange");
    assert_ne!(found, Some(0xA), "swizzle_a must not be called via sel_a after exchange");
}

#[test]
fn method_swizzle() {
    let mut rt = Runtime::new();
    let a = sel_register_name_str(&mut rt.sels, "a");
    let b = sel_register_name_str(&mut rt.sels, "b");
    let cls = objc_allocate_class_pair(&mut rt, None, "Swz", 0);
    o3jc::class_registry::class_add_method(&mut rt, cls, a, 1, TYPES);
    o3jc::class_registry::class_add_method(&mut rt, cls, b, 2, TYPES);
    objc_register_class_pair(&mut rt, cls);
    let ma = class_get_instance_method(&rt, Some(cls), a).unwrap();
    let mb = class_get_instance_method(&rt, Some(cls), b).unwrap();
    method_exchange_implementations(&mut rt, ma, mb);
    let ra = objc_msg_lookup(&mut rt, instance(cls), a) == Some(2);
    let rb = objc_msg_lookup(&mut rt, instance(cls), b) == Some(1);
    assert_eq!((ra as u8, (!rb) as u8), (1, 0));
}

#[test]
fn exchange_with_itself_changes_nothing() {
    let mut rt = Runtime::new();
    let a = sel_register_name_str(&mut rt.sels, "a");
    let cls = objc_allocate_class_pair(&mut rt, None, "Self", 0);
    o3jc::class_registry::class_add_method(&mut rt, cls, a, 11, TYPES);
    let m = class_get_instance_method(&rt, Some(cls), a).unwrap();
    method_exchange_implementations(&mut rt, m, m);
    assert_eq!(method_get_implementation(&rt.classes, m), 11);
}

#[test]
fn post_registration_add_method() {
    let mut rt = Runtime::new();
    let sel = sel_register_name_str(&mut rt.sels, "postRegMethod");
    let cls = objc_allocate_class_pair(&mut rt, None, "PostRegClass", 0);
    objc_register_class_pair(&mut rt, cls);
    assert!(
        objc_msg_lookup(&mut rt, instance(cls), sel).is_none(),
        "method must not exist before post-registration add"
    );
    let added = o3jc::class_registry::class_add_method(&mut rt, cls, sel, 0x9, TYPES);
    assert!(added, "post-registration add must return true");
    let found = objc_msg_lookup(&mut rt, instance(cls), sel);
    assert!(found.is_some(), "method must be found after post-registration add");
    assert_eq!(found, Some(0x9));
}

#[test]
fn add_method_list_placement() {
    let mut rt = Runtime::new();
    let a = sel_register_name_str(&mut rt.sels, "a");
    let b = sel_register_name_str(&mut rt.sels, "b");
    let c = sel_register_name_str(&mut rt.sels, "c");
    let cls = objc_allocate_class_pair(&mut rt, None, "Lists", 0);
    o3jc::class_registry::class_add_method(&mut rt, cls, a, 1, TYPES);
    o3jc::class_registry::class_add_method(&mut rt, cls, b, 2, TYPES);
    assert_eq!(rt.classes.classes[cls.0].method_list.len(), 1, "before registration one list grows");
    assert_eq!(rt.classes.classes[cls.0].method_list[0].entries.len(), 2);
    objc_register_class_pair(&mut rt, cls);
    o3jc::class_registry::class_add_method(&mut rt, cls, c, 3, TYPES);
    assert_eq!(rt.classes.classes[cls.0].method_list.len(), 2, "after registration a list is prepended");
    assert_eq!(rt.classes.classes[cls.0].method_list[0].entries[0].imp, 3);
}

#[test]
fn post_registration_add_flushes_subclass_caches() {
    let mut rt = Runtime::new();
    let sel = sel_register_name_str(&mut rt.sels, "m");
    let base = objc_allocate_class_pair(&mut rt, None, "Base", 0);
    o3jc::class_registry::class_add_method(&mut rt, base, sel, 1, TYPES);
    objc_register_class_pair(&mut rt, base);
    let mid = objc_allocate_class_pair(&mut rt, Some(base), "Mid", 0);
    objc_register_class_pair(&mut rt, mid);
    let leaf = objc_allocate_class_pair(&mut rt, Some(mid), "Leaf", 0);
    objc_register_class_pair(&mut rt, leaf);
    assert_eq!(objc_msg_lookup(&mut rt, instance(leaf), sel), Some(1));
    assert_eq!(class_replace_method(&mut rt, mid, sel, 2, TYPES), None, "mid has no own method: added");
    assert_eq!(objc_msg_lookup(&mut rt, instance(leaf), sel), Some(2), "leaf's stale cache was flushed");
    assert_eq!(objc_msg_lookup(&mut rt, instance(base), sel), Some(1));
}

#[test]
fn replace_method_returns_previous() {
    let mut rt = Runtime::new();
    let sel = sel_register_name_str(&mut rt.sels, "r");
    let cls = objc_allocate_class_pair(&mut rt, None, "Repl", 0);
    objc_register_class_pair(&mut rt, cls);
    assert_eq!(class_replace_method(&mut rt, cls, sel, 10, TYPES), None);
    assert_eq!(objc_msg_lookup(&mut rt, instance(cls), sel), Some(10));
    assert_eq!(class_replace_method(&mut rt, cls, sel, 20, TYPES), Some(10));
    assert_eq!(objc_msg_lookup(&mut rt, instance(cls), sel), Some(20));
}

#[test]
fn introspection() {
    let mut rt = Runtime::new();
    let sel = sel_register_name_str(&mut rt.sels, "introspected");
    let other = sel_register_name_str(&mut rt.sels, "other");
    let parent = objc_allocate_class_pair(&mut rt, None, "IntroParent", 0);
    o3jc::class_registry::class_add_method(&mut rt, parent, sel, 0x77, TYPES);
    objc_register_class_pair(&mut rt, parent);
    let child = objc_allocate_class_pair(&mut rt, Some(parent), "IntroChild", 0);
    objc_register_class_pair(&mut rt, child);
    let m = class_get_instance_method(&rt, Some(parent), sel);
    assert_eq!(m.map(|m| method_get_implementation(&rt.classes, m)), Some(0x77));
    assert!(class_get_instance_method(&rt, Some(child), sel).is_none(), "own methods only");
    assert!(class_get_instance_method(&rt, Some(parent), other).is_none());
    assert!(class_get_instance_method(&rt, None, sel).is_none());
}

#[test]
fn cache_is_cleared_when_full() {
    let mut rt = Runtime::new();
    let cls = objc_allocate_class_pair(&mut rt, None, "Big", 0);
    let mut sels = Vec::new();
    for i in 0..17usize {
        let s = sel_register_name_str(&mut rt.sels, &format!("m{}", i));
        o3jc::class_registry::class_add_method(&mut rt, cls, s, 100 + i, TYPES);
        sels.push(s);
    }
    objc_register_class_pair(&mut rt, cls);
    for (i, s) in sels.iter().enumerate().take(16) {
        assert_eq!(objc_msg_lookup(&mut rt, instance(cls), *s), Some(100 + i));
    }
    assert_eq!(rt.classes.classes[cls.0].dtable.as_ref().unwrap().entries.len(), 16);
    assert_eq!(objc_msg_lookup(&mut rt, instance(cls), sels[16]), Some(116));
    assert_eq!(rt.classes.classes[cls.0].dtable.as_ref().unwrap().entries, vec![(sels[16], 116)]);
}

#[test]
fn flushing_trees() {
    let mut rt = Runtime::new();
    let sel = sel_register_name_str(&mut rt.sels, "m");
    let a = objc_allocate_class_pair(&mut rt, None, "TA", 0);
    o3jc::class_registry::class_add_method(&mut rt, a, sel, 1, TYPES);
    let b = objc_allocate_class_pair(&mut rt, Some(a), "TB", 0);
    let other = objc_allocate_class_pair(&mut rt, None, "Other", 0);
    o3jc::class_registry::class_add_method(&mut rt, other, sel, 2, TYPES);
    objc_msg_lookup(&mut rt, instance(b), sel);
    objc_msg_lookup(&mut rt, instance(other), sel);
    flush_class_cache_tree(&mut rt.classes, a);
    assert_eq!(rt.classes.classes[b.0].dtable.as_ref().unwrap().entries.len(), 0);
    assert_eq!(rt.classes.classes[other.0].dtable.as_ref().unwrap().entries.len(), 1);
    flush_all_caches(&mut rt.classes);
    assert_eq!(rt.classes.classes[other.0].dtable.as_ref().unwrap().entries.len(), 1, "unregistered: not flushed");
    objc_register_class_pair(&mut rt, other);
    flush_all_caches(&mut rt.classes);
    assert_eq!(rt.classes.classes[other.0].dtable.as_ref().unwrap().entries.len(), 0);
}

#[test]
fn method_handle_survives_later_adds() {
    let mut rt = Runtime::new();
    let a = sel_register_name_str(&mut rt.sels, "first");
    let b = sel_register_name_str(&mut rt.sels, "second");
    let c = sel_register_name_str(&mut rt.sels, "third");
    let cls = objc_allocate_class_pair(&mut rt, None, "Stable", 0);
    o3jc::class_registry::class_add_method(&mut rt, cls, a, 0x10, TYPES);
    let m = class_get_instance_method(&rt, Some(cls), a).unwrap();
    o3jc::class_registry::class_add_method(&mut rt, cls, b, 0x20, TYPES);
    objc_register_class_pair(&mut rt, cls);
    o3jc::class_registry::class_add_method(&mut rt, cls, c, 0x30, TYPES);
    assert_eq!(rt.classes.classes[cls.0].method_list.len(), 2);
    assert_eq!(method_get_implementation(&rt.classes, m), 0x10, "the handle still names the same method");
    assert_eq!(class_get_instance_method(&rt, Some(cls), a), Some(m));
    let mc = class_get_instance_method(&rt, Some(cls), c).unwrap();
    assert_eq!(method_get_implementation(&rt.classes, mc), 0x30);
    class_replace_method(&mut rt, cls, a, 0x11, TYPES);
    assert_eq!(method_get_implementation(&rt.classes, m), 0x11);
    assert_eq!(method_get_implementation(&rt.classes, mc), 0x30);
}

#[test]
fn method_list_iter_walks_the_chain_head_first() {
    let mut rt = Runtime::new();
    let a = sel_register_name_str(&mut rt.sels, "a");
    let b = sel_register_name_str(&mut rt.sels, "b");
    let cls = objc_allocate_class_pair(&mut rt, None, "Walk", 0);
    o3jc::class_registry::class_add_method(&mut rt, cls, a, 1, TYPES);
    objc_register_class_pair(&mut rt, cls);
    o3jc::class_registry::class_add_method(&mut rt, cls, b, 2, TYPES);
    let lists = o3jc::class_registry::method_list_iter(&rt.classes, cls);
    assert_eq!(lists.len(), 2);
    assert_eq!(lists[0].entries[0].imp, 2);
    assert_eq!(lists[1].entries[0].imp, 1);
}
