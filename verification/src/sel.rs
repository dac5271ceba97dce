//! The selector intern table.
//!
//! Every selector name is interned once: equal names get the same interned
//! name, different names different ones.  Selectors registered by name
//! (untyped) are deduplicated too, so registering a name twice yields the
//! same selector.
use vstd::prelude::*;

use crate::external::{str_index_contents, str_index_get, str_index_insert, str_index_new, StrIndex};
use crate::types::{ObjcSelector, SEL};

verus! {

/// The selector tables.
pub struct SelectorTable {
    /// Interned names, indexed by interned-name number.
    pub names: Vec<String>,
    /// Name → interned-name number.
    pub name_index: StrIndex,
    /// Selector records, indexed by selector.
    pub sels: Vec<ObjcSelector>,
    /// Name → the untyped selector registered under that name.
    pub sel_index: StrIndex,
}

impl SelectorTable {
    /// What the name index holds.
    pub open spec fn name_map(&self) -> Map<Seq<char>, usize> {
        str_index_contents(self.name_index)
    }

    /// What the selector index holds.
    pub open spec fn sel_map(&self) -> Map<Seq<char>, usize> {
        str_index_contents(self.sel_index)
    }

    /// The number of selectors.
    pub open spec fn num_sels(&self) -> nat {
        self.sels@.len()
    }

    /// The interned-name number of selector `s` (what selector equality
    /// compares).
    pub open spec fn key(&self, s: SEL) -> usize {
        self.sels@[s as int].name
    }

    /// The name of selector `s`.
    pub open spec fn sel_name(&self, s: SEL) -> Seq<char> {
        self.names@[self.key(s) as int]@
    }

    /// The tables are consistent: the name index and the list of interned
    /// names are inverse to each other, every selector's interned name
    /// exists, and the selector index maps each name to an untyped selector
    /// of that name.
    pub open spec fn wf(&self) -> bool {
        &&& forall|i: int|
            0 <= i < self.names@.len() ==> {
                &&& #[trigger] self.name_map().contains_key(self.names@[i]@)
                &&& self.name_map()[self.names@[i]@] == i
            }
        &&& forall|k: Seq<char>|
            #[trigger] self.name_map().contains_key(k) ==> {
                &&& self.name_map()[k] < self.names@.len()
                &&& self.names@[self.name_map()[k] as int]@ == k
            }
        &&& forall|s: int| 0 <= s < self.sels@.len() ==> #[trigger] self.sels@[s].name < self.names@.len()
        &&& forall|k: Seq<char>|
            #[trigger] self.sel_map().contains_key(k) ==> {
                &&& self.sel_map()[k] < self.sels@.len()
                &&& self.sel_name(self.sel_map()[k]) == k
                &&& self.sels@[self.sel_map()[k] as int].types is None
            }
    }

    /// `new` keeps everything `self` holds: interned names and selectors
    /// keep their numbers, and both indexes keep their entries.
    pub open spec fn extends_to(&self, new: &Self) -> bool {
        &&& self.names@.len() <= new.names@.len()
        &&& forall|i: int| 0 <= i < self.names@.len() ==> #[trigger] new.names@[i]@ == self.names@[i]@
        &&& self.sels@.len() <= new.sels@.len()
        &&& forall|s: int| 0 <= s < self.sels@.len() ==> #[trigger] new.sels@[s] == self.sels@[s]
        &&& forall|k: Seq<char>|
            #[trigger] self.name_map().contains_key(k) ==> new.name_map().contains_key(k)
                && new.name_map()[k] == self.name_map()[k]
        &&& forall|k: Seq<char>|
            #[trigger] self.sel_map().contains_key(k) ==> new.sel_map().contains_key(k)
                && new.sel_map()[k] == self.sel_map()[k]
    }

    /// `new` and `r` are what registering `name` in `self` gives: `r` is
    /// the untyped selector of that name, the one already registered if
    /// there is one (and then nothing changes).
    pub open spec fn registers(&self, name: Seq<char>, new: &Self, r: SEL) -> bool {
        &&& new.wf()
        &&& self.extends_to(new)
        &&& r < new.sels@.len()
        &&& new.sel_name(r) == name
        &&& new.sels@[r as int].types is None
        &&& new.sel_map().contains_key(name)
        &&& new.sel_map()[name] == r
        &&& self.sel_map().contains_key(name) ==> r == self.sel_map()[name] && *new == *self
    }

    /// An empty table.
    pub fn new() -> (r: SelectorTable)
        ensures
            r.wf(),
            r.names@.len() == 0,
            r.sels@.len() == 0,
            r.name_map().dom().is_empty(),
            r.sel_map().dom().is_empty(),
    {
        SelectorTable {
            names: Vec::new(),
            name_index: str_index_new(),
            sels: Vec::new(),
            sel_index: str_index_new(),
        }
    }
}

/// Intern a selector name and return its interned-name number.
///
/// Interning the same name twice returns the same number; a new name gets
/// the next number.  (Names with an interior NUL cannot be interned.)
pub fn intern_selector_name(t: &mut SelectorTable, name: &str) -> (r: usize)
    requires
        old(t).wf(),
        !name@.contains('\0'),
    ensures
        final(t).wf(),
        old(t).extends_to(final(t)),
        r < final(t).names@.len(),
        final(t).names@[r as int]@ == name@,
        final(t).name_map().contains_key(name@),
        final(t).name_map()[name@] == r,
        old(t).name_map().contains_key(name@) ==> r == old(t).name_map()[name@] && *final(t) == *old(t),
        !old(t).name_map().contains_key(name@) ==> {
            &&& r == old(t).names@.len()
            &&& final(t).names@.len() == old(t).names@.len() + 1
            &&& final(t).sels == old(t).sels
            &&& final(t).sel_index == old(t).sel_index
        },
{
    match str_index_get(&t.name_index, name) {
        Some(r) => r,
        None => {
            let id = t.names.len();
            t.names.push(name.to_owned());
            str_index_insert(&mut t.name_index, name.to_owned(), id);
            proof {
                assert forall|i: int| 0 <= i < t.names@.len() implies {
                    &&& #[trigger] t.name_map().contains_key(t.names@[i]@)
                    &&& t.name_map()[t.names@[i]@] == i
                } by {
                    if i < id {
                        assert(old(t).names@[i]@ == t.names@[i]@);
                        assert(old(t).name_map().contains_key(old(t).names@[i]@));
                    }
                }
                assert forall|k: Seq<char>| #[trigger] t.name_map().contains_key(k) implies {
                    &&& t.name_map()[k] < t.names@.len()
                    &&& t.names@[t.name_map()[k] as int]@ == k
                } by {
                    if k != name@ {
                        assert(old(t).name_map().contains_key(k));
                    }
                }
                assert forall|k: Seq<char>| #[trigger] t.sel_map().contains_key(k) implies {
                    &&& t.sel_map()[k] < t.sels@.len()
                    &&& t.sel_name(t.sel_map()[k]) == k
                    &&& t.sels@[t.sel_map()[k] as int].types is None
                } by {
                    assert(old(t).sel_map().contains_key(k));
                    let s = t.sel_map()[k];
                    assert(t.sels@[s as int].name < old(t).names@.len());
                }
            }
            id
        },
    }
}

/// Return (or create) the untyped selector registered under `name`.
///
/// Registering the same name twice returns the same selector.
pub fn sel_register_name_str(t: &mut SelectorTable, name: &str) -> (r: SEL)
    requires
        old(t).wf(),
        !name@.contains('\0'),
    ensures
        old(t).registers(name@, final(t), r),
        !old(t).sel_map().contains_key(name@) ==> r == old(t).sels@.len() && final(t).sels@.len()
            == old(t).sels@.len() + 1,
{
    match str_index_get(&t.sel_index, name) {
        Some(r) => r,
        None => {
            let ghost t0 = *t;
            let name_id = intern_selector_name(t, name);
            let ghost t1 = *t;
            let s = t.sels.len();
            t.sels.push(ObjcSelector { name: name_id, types: None });
            str_index_insert(&mut t.sel_index, name.to_owned(), s);
            proof {
                assert(t.sel_name(s) == name@);
                assert forall|k: Seq<char>| #[trigger] t.sel_map().contains_key(k) implies {
                    &&& t.sel_map()[k] < t.sels@.len()
                    &&& t.sel_name(t.sel_map()[k]) == k
                    &&& t.sels@[t.sel_map()[k] as int].types is None
                } by {
                    if k != name@ {
                        assert(t0.sel_map().contains_key(k));
                        let x = t0.sel_map()[k];
                        assert(t.sels@[x as int] == t0.sels@[x as int]);
                        assert(t0.key(x) < t0.names@.len());
                    }
                }
                assert forall|i: int| 0 <= i < t.sels@.len() implies #[trigger] t.sels@[i].name < t.names@.len() by {
                    if i < s {
                        assert(t.sels@[i] == t1.sels@[i]);
                    }
                }
                assert forall|i: int| 0 <= i < t0.sels@.len() implies #[trigger] t.sels@[i] == t0.sels@[i] by {
                    assert(t.sels@[i] == t1.sels@[i]);
                }
            }
            s
        },
    }
}

/// The name of a selector.
pub fn sel_get_name(t: &SelectorTable, sel: SEL) -> (r: String)
    requires
        t.wf(),
        sel < t.num_sels(),
    ensures
        r@ == t.sel_name(sel),
{
    let id = t.sels[sel].name;
    t.names[id].clone()
}

impl ObjcSelector {
    /// The interned name of this selector record.
    pub fn name(&self, t: &SelectorTable) -> (r: String)
        requires
            t.wf(),
            self.name < t.names@.len(),
        ensures
            r@ == t.names@[self.name as int]@,
    {
        t.names[self.name].clone()
    }
}

/// Whether two selectors denote the same method name.
pub fn sel_eq(t: &SelectorTable, a: SEL, b: SEL) -> (r: bool)
    requires
        t.wf(),
        a < t.num_sels(),
        b < t.num_sels(),
    ensures
        r == (t.key(a) == t.key(b)),
        r == (t.sel_name(a) == t.sel_name(b)),
{
    proof {
        let ka = t.key(a) as int;
        let kb = t.key(b) as int;
        assert(t.name_map().contains_key(t.names@[ka]@));
        assert(t.name_map().contains_key(t.names@[kb]@));
    }
    t.sels[a].name == t.sels[b].name
}

/// Add a typed selector record whose name is `name` (interned first), as
/// the loader does for each selector of a compiled module.
pub fn add_typed_selector(t: &mut SelectorTable, name: &str, types: Option<String>) -> (r: SEL)
    requires
        old(t).wf(),
        !name@.contains('\0'),
    ensures
        final(t).wf(),
        old(t).extends_to(final(t)),
        r == old(t).sels@.len(),
        final(t).sels@.len() == old(t).sels@.len() + 1,
        final(t).sel_name(r) == name@,
        final(t).sels@[r as int].types == types,
        final(t).sel_map() == old(t).sel_map(),
{
    let ghost t0 = *t;
    let name_id = intern_selector_name(t, name);
    let ghost t1 = *t;
    let s = t.sels.len();
    t.sels.push(ObjcSelector { name: name_id, types });
    proof {
        assert forall|k: Seq<char>| #[trigger] t.sel_map().contains_key(k) implies {
            &&& t.sel_map()[k] < t.sels@.len()
            &&& t.sel_name(t.sel_map()[k]) == k
            &&& t.sels@[t.sel_map()[k] as int].types is None
        } by {
            assert(t1.sel_map().contains_key(k));
            let x = t1.sel_map()[k];
            assert(t.sels@[x as int] == t1.sels@[x as int]);
        }
        assert forall|i: int| 0 <= i < t.sels@.len() implies #[trigger] t.sels@[i].name < t.names@.len() by {
            if i < s {
                assert(t.sels@[i] == t1.sels@[i]);
            }
        }
        assert forall|i: int| 0 <= i < t0.sels@.len() implies #[trigger] t.sels@[i] == t0.sels@[i] by {
            assert(t.sels@[i] == t1.sels@[i]);
        }
    }
    s
}

/// Registering two names in turn yields the same selector exactly when the
/// names are equal.
pub proof fn lemma_register_unique(
    t0: SelectorTable,
    a: Seq<char>,
    t1: SelectorTable,
    r1: SEL,
    b: Seq<char>,
    t2: SelectorTable,
    r2: SEL,
)
    requires
        t0.wf(),
        t0.registers(a, &t1, r1),
        t1.registers(b, &t2, r2),
    ensures
        (r1 == r2) <==> (a == b),
        (t2.sel_name(r1) == t2.sel_name(r2)) <==> (a == b),
{
    assert(t2.sels@[r1 as int] == t1.sels@[r1 as int]);
    assert(t2.sel_name(r1) == a);
}

/// The name of a registered selector is the name it was registered under.
pub proof fn lemma_register_name_round_trip(t0: SelectorTable, name: Seq<char>, t1: SelectorTable, r: SEL)
    requires
        t0.wf(),
        t0.registers(name, &t1, r),
    ensures
        r < t1.num_sels(),
        t1.sel_name(r) == name,
{
}

} // verus!
