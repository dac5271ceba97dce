//! An Objective-C runtime core: selector interning, class registry,
//! method lists, per-class method caches, message lookup, retain/release
//! bookkeeping with weak references, autorelease pools and the loader's
//! class fix-ups.
//!
//! All runtime state is held in explicit tables; objects, classes and
//! selectors are referred to by handles into those tables.

pub mod autorelease;
pub mod class_registry;
pub mod coherence;
pub mod external;
pub mod loader;
pub mod method_cache;
pub mod msg_send;
pub mod retain_release;
pub mod sel;
pub mod send_ptr;
pub mod types;

pub use class_registry::{
    class_add_method, class_get_instance_method, class_replace_method, method_exchange_implementations,
    method_get_implementation, objc_allocate_class_pair, objc_get_class_str, objc_register_class_pair,
    register_loaded_class, ClassTable, MethodRef, Runtime,
};
pub use method_cache::{flush_all_caches, flush_class_cache_tree, MethodCache};
pub use msg_send::{class_lookup_method, objc_msg_lookup, objc_msg_lookup_nonnull};
pub use sel::{sel_eq, sel_get_name, sel_register_name_str, SelectorTable};
pub use types::{Class, ClassRef, Id, MethodEntry, MethodList, ObjcClass, ObjcObject, ObjcPtr, ObjcSelector, IMP, SEL};
