# o3jc

The core of an Objective-C runtime (GNUstep v2 ABI), written in Verus:
selector interning, the class table and registry, method lists and
per-class method caches, message lookup, retain/release bookkeeping with
weak references, autorelease pools, and the loader's class fix-ups.

## Layout

- `src/` — the verified library. Runtime state is held in explicit
  tables (`Runtime`, `SideTable`, `AutoreleasePools`); selectors and
  classes are numbers into those tables, objects are addresses.
  - `sel.rs` — the selector intern table.
  - `class_registry.rs` — class pairs, registration, adding, replacing
    and exchanging methods, method handles.
  - `method_cache.rs` — per-class caches and their invalidation along the
    subclass tree.
  - `msg_send.rs` — the superclass walk and cached message lookup.
  - `coherence.rs` — why cached and uncached lookups agree.
  - `retain_release.rs`, `autorelease.rs` — reference counting, weak
    references, autorelease pools.
  - `loader.rs` — loading the selectors and class pairs of a compiled
    module.
  - `external.rs` — the `dashmap` and `smallvec` collections the tables
    use, behind trusted wrappers.
- `tests/` — tests of the library.
- `app/` — the C ABI (`sel_registerName`, `objc_msg_lookup`,
  `__objc_load`, `objc_msgSend`, …): converts between C addresses and the
  library's handles, holds the process-wide state behind a lock, locks
  weak-reference slots, and runs `-dealloc`.
