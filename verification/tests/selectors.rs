use o3jc::sel::{add_typed_selector, intern_selector_name, sel_eq, sel_get_name, sel_register_name_str, SelectorTable};

#[test]
fn selector_interning_same_pointer() {
    let mut t = SelectorTable::new();
    let s1 = sel_register_name_str(&mut t, "testMethod");
    let s2 = sel_register_name_str(&mut t, "testMethod");
    assert_eq!(s1, s2, "identical names must intern to the same pointer");
}

#[test]
fn selector_interning_different_pointers() {
    let mut t = SelectorTable::new();
    let sa = sel_register_name_str(&mut t, "alpha");
    let sb = sel_register_name_str(&mut t, "beta");
    assert_ne!(sa, sb, "different names must have different SELs");
}

#[test]
fn selector_same() {
    let mut t = SelectorTable::new();
    let a = sel_register_name_str(&mut t, "foo:bar:");
    let b = sel_register_name_str(&mut t, "foo:bar:");
    assert!(a == b);
    assert!(sel_eq(&t, a, b));
}

#[test]
fn selector_different() {
    let mut t = SelectorTable::new();
    let a = sel_register_name_str(&mut t, "foo");
    let b = sel_register_name_str(&mut t, "bar");
    assert!(a != b);
    assert!(!sel_eq(&t, a, b));
}

#[test]
fn selector_name_round_trip() {
    let mut t = SelectorTable::new();
    let a = sel_register_name_str(&mut t, "initWithFrame:");
    let b = sel_register_name_str(&mut t, "dealloc");
    assert_eq!(sel_get_name(&t, a), "initWithFrame:");
    assert_eq!(sel_get_name(&t, b), "dealloc");
}

#[test]
fn interned_names_are_numbered_in_order() {
    let mut t = SelectorTable::new();
    assert_eq!(intern_selector_name(&mut t, "a"), 0);
    assert_eq!(intern_selector_name(&mut t, "b"), 1);
    assert_eq!(intern_selector_name(&mut t, "a"), 0);
    assert_eq!(t.names.len(), 2);
}

#[test]
fn typed_selector_equals_registered_one() {
    let mut t = SelectorTable::new();
    let plain = sel_register_name_str(&mut t, "hello");
    let typed = add_typed_selector(&mut t, "hello", Some("v16@0:8".to_string()));
    assert_ne!(plain, typed, "a typed selector is a record of its own");
    assert!(sel_eq(&t, plain, typed), "same name, same method");
    assert_eq!(t.sels[typed].types(), Some(&"v16@0:8".to_string()));
    assert_eq!(t.sels[plain].types(), None);
    assert_eq!(t.sels[typed].name(&t), "hello");
    let again = sel_register_name_str(&mut t, "hello");
    assert_eq!(again, plain, "typed selectors do not replace the registered one");
}

#[test]
fn first_selector_is_numbered_zero() {
    let mut t = SelectorTable::new();
    assert_eq!(sel_register_name_str(&mut t, "x"), 0);
    assert_eq!(sel_register_name_str(&mut t, "y"), 1);
    assert_eq!(sel_register_name_str(&mut t, "x"), 0);
}
