//! Handles and records of the runtime's object model.
//!
//! Selectors, classes and objects are referred to by handles: a selector
//! is an index into the selector table, a class an index into the class
//! table, an object its address, an implementation the address of its
//! function.
use vstd::prelude::*;

use crate::method_cache::MethodCache;

verus! {

/// A selector: the index of its record in the selector table.
pub type SEL = usize;

/// A method implementation: the address of its function.
pub type IMP = usize;

/// A reference to a live object: its address.
#[derive(Clone, Copy, Debug, PartialEq, Eq, Structural, Hash)]
pub struct ObjcPtr(pub usize);

/// An object reference, `None` standing for `nil`.
pub type Id = Option<ObjcPtr>;

/// A reference to a class: the index of its record in the class table.
#[derive(Clone, Copy, Debug, PartialEq, Eq, Structural)]
pub struct ClassRef(pub usize);

/// A nullable class reference.
pub type Class = Option<ClassRef>;

/// The part of an object the runtime reads: the class it is an instance of.
#[derive(Clone, Copy, Debug, PartialEq, Eq, Structural)]
pub struct ObjcObject {
    pub isa: ClassRef,
}

/// A selector record: the interned name (an index into the table of
/// interned names) and an optional type encoding.  Two selectors denote
/// the same method name exactly when their interned names are equal.
pub struct ObjcSelector {
    pub name: usize,
    pub types: Option<String>,
}

impl ObjcSelector {
    /// The type encoding, or `None` for an untyped selector.
    pub fn types(&self) -> (r: Option<&String>)
        ensures
            r is Some <==> self.types is Some,
            r matches Some(t) ==> self.types == Some(*t),
    {
        self.types.as_ref()
    }
}

/// A method: its implementation, its selector and the address of its
/// type-encoding string.
#[derive(Clone, Copy, Debug, PartialEq, Eq, Structural)]
pub struct MethodEntry {
    pub imp: IMP,
    pub sel: SEL,
    pub types: usize,
}

/// One list of methods in a class's chain of method lists.
pub struct MethodList {
    pub entries: Vec<MethodEntry>,
}

impl MethodList {
    /// A new, empty method list.
    pub fn new() -> (r: MethodList)
        ensures
            r.entries@.len() == 0,
    {
        MethodList { entries: Vec::new() }
    }
}

/// Flag: the class record is a metaclass.
pub const CLASS_IS_METACLASS: u64 = 1;

/// Flag: the class has been registered and is live in the class table.
pub const CLASS_REGISTERED: u64 = 0x10000;

/// The size of an object's header (its `isa` word), in bytes.
pub const OBJECT_HEADER_SIZE: i64 = 8;

/// The size of a class record in its binary layout (17 words), in bytes.
pub const CLASS_RECORD_SIZE: i64 = 136;

/// A class record.
///
/// `method_list` is the chain of method lists, the head (highest priority)
/// first.  `dtable` holds the per-class method cache.
pub struct ObjcClass {
    pub isa: Class,
    pub super_class: Class,
    pub name: String,
    pub version: i64,
    pub info: u64,
    pub instance_size: i64,
    pub method_list: Vec<MethodList>,
    pub dtable: Option<MethodCache>,
    pub subclass_list: Class,
    pub sibling_class: Class,
    pub abi_version: i64,
}

impl ObjcClass {
    /// The per-class method cache.
    pub fn cache(&self) -> (r: Option<&MethodCache>)
        ensures
            r is Some <==> self.dtable is Some,
            r matches Some(c) ==> self.dtable == Some(*c),
    {
        self.dtable.as_ref()
    }

    /// Store a method cache in the class record.
    pub fn set_cache(&mut self, cache: Option<MethodCache>)
        ensures
            final(self).dtable == cache,
            final(self).isa == old(self).isa,
            final(self).super_class == old(self).super_class,
            final(self).name == old(self).name,
            final(self).version == old(self).version,
            final(self).info == old(self).info,
            final(self).instance_size == old(self).instance_size,
            final(self).method_list == old(self).method_list,
            final(self).subclass_list == old(self).subclass_list,
            final(self).sibling_class == old(self).sibling_class,
            final(self).abi_version == old(self).abi_version,
    {
        self.dtable = cache;
    }
}

} // verus!
