use o3jc::class_registry::{objc_get_class_str, Runtime};
use o3jc::loader::{
    convert_method_list, load_classes, load_module, load_selectors, ClassSource, CompiledClass, CompiledClassData, CompiledSelector,
};
use o3jc::msg_send::{class_lookup_method, objc_msg_lookup};
use o3jc::sel::{sel_eq, sel_get_name, sel_register_name_str};
use o3jc::types::{ClassRef, MethodEntry, ObjcObject, CLASS_REGISTERED};

fn data(instance_size: i64, methods: Vec<MethodEntry>) -> CompiledClassData {
    CompiledClassData { version: 0, info: 0, instance_size, abi_version: 0, methods }
}

fn compiled(name: &str, super_class: Option<ClassSource>, size: i64, methods: Vec<MethodEntry>) -> CompiledClass {
    CompiledClass { addr: 0, name: name.to_string(), super_class, cls: data(size, methods), meta: data(-136, vec![]) }
}

#[test]
fn load_selectors_interns_and_types() {
    let mut rt = Runtime::new();
    let before = sel_register_name_str(&mut rt.sels, "init");
    let entries = vec![
        CompiledSelector { name: Some("init".to_string()), types: Some("@16@0:8".to_string()) },
        CompiledSelector { name: Some("value".to_string()), types: None },
        CompiledSelector { name: None, types: None },
    ];
    let sels = load_selectors(&mut rt.sels, &entries);
    assert_eq!(sels.len(), 3);
    let s0 = sels[0].unwrap();
    let s1 = sels[1].unwrap();
    assert!(sels[2].is_none());
    assert_eq!((s0, s1), (before + 1, before + 2), "numbered in entry order after the existing ones");
    assert_eq!(rt.sels.sels.len(), 3);
    assert!(sel_eq(&rt.sels, s0, before));
    assert_eq!(sel_get_name(&rt.sels, s1), "value");
    assert_eq!(rt.sels.sels[s0].types(), Some(&"@16@0:8".to_string()));
    assert_eq!(rt.sels.sels[s1].types(), None);
}

#[test]
fn convert_method_list_copies_entries() {
    assert!(convert_method_list(&vec![]).is_none());
    let e = vec![MethodEntry { imp: 0x10, sel: 0, types: 0 }, MethodEntry { imp: 0x20, sel: 1, types: 0 }];
    let l = convert_method_list(&e).unwrap();
    assert_eq!(l.entries, e);
}

#[test]
fn static_class() {
    let mut rt = Runtime::new();
    let sel = sel_register_name_str(&mut rt.sels, "hello");
    let module = vec![compiled("Static", None, 0, vec![MethodEntry { imp: 0x100, sel, types: 0 }])];
    let placed = load_classes(&mut rt, &module);
    let cls = placed[0].unwrap();
    assert_eq!(objc_get_class_str(&rt.classes, "Static"), Some(cls));
    let rec = &rt.classes.classes[cls.0];
    assert_eq!(rec.instance_size, 8, "a root class without a size gets an object header");
    assert_eq!(rec.info & CLASS_REGISTERED, CLASS_REGISTERED);
    assert_eq!(rec.isa, Some(ClassRef(cls.0 + 1)));
    let meta = &rt.classes.classes[cls.0 + 1];
    assert_eq!(meta.isa, Some(ClassRef(cls.0 + 1)), "a root metaclass is its own metaclass");
    assert_eq!(meta.super_class, Some(cls), "a root metaclass's superclass is the root class");
    assert_eq!(meta.instance_size, 136, "negative compiled sizes are made positive");
    assert_eq!(class_lookup_method(&rt, cls, sel), Some(0x100));
    assert_eq!(objc_msg_lookup(&mut rt, Some(ObjcObject { isa: cls }), sel), Some(0x100));
}

#[test]
fn static_hierarchy() {
    let mut rt = Runtime::new();
    let base_sel = sel_register_name_str(&mut rt.sels, "base");
    let leaf_sel = sel_register_name_str(&mut rt.sels, "leaf");
    let module = vec![
        compiled("Leaf", Some(ClassSource::Module(1)), -24, vec![MethodEntry { imp: 0x300, sel: leaf_sel, types: 0 }]),
        compiled("Mid", Some(ClassSource::Module(2)), -16, vec![]),
        compiled("Base", None, -8, vec![MethodEntry { imp: 0x100, sel: base_sel, types: 0 }]),
    ];
    let placed = load_classes(&mut rt, &module);
    let leaf = placed[0].unwrap();
    let mid = placed[1].unwrap();
    let base = placed[2].unwrap();
    assert!(base.0 < mid.0 && mid.0 < leaf.0, "superclasses are placed before their subclasses");
    assert_eq!(rt.classes.classes[leaf.0].super_class, Some(mid));
    assert_eq!(rt.classes.classes[mid.0].super_class, Some(base));
    assert_eq!(rt.classes.classes[leaf.0].instance_size, 24);
    assert_eq!(rt.classes.classes[base.0].instance_size, 8);
    let base_meta = ClassRef(base.0 + 1);
    assert_eq!(rt.classes.classes[leaf.0 + 1].isa, Some(base_meta), "every metaclass's isa is the root metaclass");
    assert_eq!(rt.classes.classes[leaf.0 + 1].super_class, Some(ClassRef(mid.0 + 1)));
    assert_eq!(rt.classes.classes[base.0].subclass_list, Some(mid));
    assert_eq!(rt.classes.classes[mid.0].subclass_list, Some(leaf));
    assert_eq!(base.subclasses(&rt.classes), vec![mid], "the root metaclass is not a subclass of the root");
    assert_eq!(ClassRef(base.0 + 1).subclasses(&rt.classes), vec![ClassRef(mid.0 + 1)]);
    assert_eq!(class_lookup_method(&rt, leaf, base_sel), Some(0x100), "inherited through the loaded chain");
    assert_eq!(class_lookup_method(&rt, leaf, leaf_sel), Some(0x300));
    assert_eq!(class_lookup_method(&rt, base, leaf_sel), None);
    assert_eq!(objc_get_class_str(&rt.classes, "Leaf"), Some(leaf));
    assert_eq!(objc_get_class_str(&rt.classes, "Mid"), Some(mid));
    assert_eq!(objc_get_class_str(&rt.classes, "Base"), Some(base));
}

#[test]
fn loaded_superclass_from_runtime() {
    let mut rt = Runtime::new();
    let first = load_classes(&mut rt, &vec![compiled("Root", None, 8, vec![])]);
    let root = first[0].unwrap();
    let second = load_classes(&mut rt, &vec![compiled("Sub", Some(ClassSource::Loaded(root)), 16, vec![])]);
    let sub = second[0].unwrap();
    assert_eq!(rt.classes.classes[sub.0].super_class, Some(root));
    assert_eq!(rt.classes.classes[root.0].subclass_list, Some(sub));
    assert_eq!(objc_get_class_str(&rt.classes, "Sub"), Some(sub));
}

#[test]
fn cyclic_module_is_not_loaded() {
    let mut rt = Runtime::new();
    let module = vec![
        compiled("A", Some(ClassSource::Module(1)), 8, vec![]),
        compiled("B", Some(ClassSource::Module(0)), 8, vec![]),
        compiled("C", Some(ClassSource::Module(7)), 8, vec![]),
        compiled("D", None, 8, vec![]),
    ];
    let placed = load_classes(&mut rt, &module);
    assert!(placed[0].is_none());
    assert!(placed[1].is_none());
    assert!(placed[2].is_none(), "a superclass outside the module is never available");
    assert!(placed[3].is_some());
    assert!(objc_get_class_str(&rt.classes, "A").is_none());
    assert_eq!(rt.classes.classes.len(), 2);
}

fn at(addr: usize, name: &str, super_addr: Option<usize>) -> CompiledClass {
    CompiledClass {
        addr,
        name: name.to_string(),
        super_class: super_addr.map(ClassSource::Address),
        cls: data(-16, vec![]),
        meta: data(-136, vec![]),
    }
}

#[test]
fn superclass_record_handed_over_loads_with_the_class() {
    let mut rt = Runtime::new();
    let placed = load_module(&mut rt, vec![at(0x200, "Sub", Some(0x100)), at(0x100, "Base", None)]);
    let sub = placed[0].unwrap();
    let base = placed[1].unwrap();
    assert!(base.0 < sub.0, "the superclass is placed first, whatever the order");
    assert_eq!(rt.classes.classes[sub.0].super_class, Some(base));
    assert_eq!(rt.classes.classes[sub.0].instance_size, 16);
    assert_eq!(rt.classes.classes[sub.0 + 1].super_class, Some(ClassRef(base.0 + 1)));
    assert_eq!(rt.classes.classes[sub.0 + 1].isa, Some(ClassRef(base.0 + 1)));
    assert_eq!(base.subclasses(&rt.classes), vec![sub]);
    assert_eq!(objc_get_class_str(&rt.classes, "Sub"), Some(sub));
    assert_eq!(objc_get_class_str(&rt.classes, "Base"), Some(base));
    assert_eq!(rt.loaded, vec![(0x200, sub), (0x100, base)]);
}

#[test]
fn superclass_loaded_earlier_is_found_by_address() {
    let mut rt = Runtime::new();
    let first = load_module(&mut rt, vec![at(0x100, "Base", None)]);
    let base = first[0].unwrap();
    let second = load_module(&mut rt, vec![at(0x300, "Leaf", Some(0x200)), at(0x200, "Mid", Some(0x100))]);
    let leaf = second[0].unwrap();
    let mid = second[1].unwrap();
    assert_eq!(rt.classes.classes[mid.0].super_class, Some(base));
    assert_eq!(rt.classes.classes[leaf.0].super_class, Some(mid));
}
