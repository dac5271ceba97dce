use o3jc::autorelease::{objc_autorelease, objc_autorelease_pool_pop, objc_autorelease_pool_push, AutoreleasePools};
use o3jc::retain_release::{
    objc_destroy_weak, objc_init_weak, objc_load_weak, objc_load_weak_retained, objc_release, objc_release_finished,
    objc_retain, objc_retain_count, objc_store_weak, ReleaseAction, SideTable,
};
use o3jc::send_ptr::SendPtr;
use o3jc::types::ObjcPtr;

const A: ObjcPtr = ObjcPtr(0x1000);
const B: ObjcPtr = ObjcPtr(0x2000);
const SLOT: usize = 0x9000;
const SLOT2: usize = 0x9008;

fn dealloc_locations(r: ReleaseAction) -> Option<Vec<usize>> {
    match r {
        ReleaseAction::Deallocate(locs) => Some(locs),
        ReleaseAction::Nothing => None,
    }
}

#[test]
fn fresh_object_counts_one_and_nil_zero() {
    let st = SideTable::new();
    assert_eq!(objc_retain_count(&st, Some(A)), 1);
    assert_eq!(objc_retain_count(&st, None), 0);
}

#[test]
fn retain_release_count() {
    let mut st = SideTable::new();
    assert_eq!(objc_retain(&mut st, Some(A)), Some(A));
    assert_eq!(objc_retain_count(&st, Some(A)), 2);
    assert_eq!(objc_retain(&mut st, Some(A)), Some(A));
    assert_eq!(objc_retain_count(&st, Some(A)), 3);
    assert!(matches!(objc_release(&mut st, Some(A)), ReleaseAction::Nothing));
    assert_eq!(objc_retain_count(&st, Some(A)), 2);
    assert!(matches!(objc_release(&mut st, Some(A)), ReleaseAction::Nothing));
    assert_eq!(objc_retain_count(&st, Some(A)), 1);
    assert_eq!(objc_retain_count(&st, Some(B)), 1, "other objects are untouched");
}

#[test]
fn nil_retain_and_release_do_nothing() {
    let mut st = SideTable::new();
    assert_eq!(objc_retain(&mut st, None), None);
    assert!(matches!(objc_release(&mut st, None), ReleaseAction::Nothing));
}

#[test]
fn release_to_zero_calls_dealloc() {
    let mut st = SideTable::new();
    let locs = dealloc_locations(objc_release(&mut st, Some(A)));
    assert_eq!(locs, Some(vec![]), "an object with no entry is deallocated by one release");
    objc_retain(&mut st, Some(B));
    assert!(matches!(objc_release(&mut st, Some(B)), ReleaseAction::Nothing));
    assert_eq!(dealloc_locations(objc_release(&mut st, Some(B))), Some(vec![]));
}

#[test]
fn deallocating_object_cannot_be_revived() {
    let mut st = SideTable::new();
    objc_retain(&mut st, Some(A));
    objc_release(&mut st, Some(A));
    assert!(dealloc_locations(objc_release(&mut st, Some(A))).is_some());
    assert_eq!(objc_retain(&mut st, Some(A)), None, "a deallocating object is not retained");
    assert!(matches!(objc_release(&mut st, Some(A)), ReleaseAction::Nothing), "a second release is ignored");
    objc_release_finished(&mut st, A);
    assert_eq!(objc_retain_count(&st, Some(A)), 1, "the address is fresh again");
    assert_eq!(objc_retain(&mut st, Some(A)), Some(A));
}

#[test]
fn weak_reference_zeroed_on_dealloc() {
    let mut st = SideTable::new();
    let slot = objc_init_weak(&mut st, SLOT, Some(A));
    assert_eq!(slot, Some(A));
    let slot2 = objc_init_weak(&mut st, SLOT2, Some(A));
    assert_eq!(slot2, Some(A));
    let locs = dealloc_locations(objc_release(&mut st, Some(A)));
    assert_eq!(locs, Some(vec![SLOT, SLOT2]));
    assert_eq!(objc_load_weak_retained(&mut st, Some(A)), None);
}

#[test]
fn store_weak_moves_registration() {
    let mut st = SideTable::new();
    let slot = objc_init_weak(&mut st, SLOT, Some(A));
    let slot = objc_store_weak(&mut st, SLOT, slot, Some(B));
    assert_eq!(slot, Some(B));
    objc_retain(&mut st, Some(A));
    objc_release(&mut st, Some(A));
    assert_eq!(dealloc_locations(objc_release(&mut st, Some(A))), Some(vec![]), "A no longer knows the slot");
    assert_eq!(dealloc_locations(objc_release(&mut st, Some(B))), Some(vec![SLOT]));
}

#[test]
fn store_weak_to_deallocating_object_stores_nil() {
    let mut st = SideTable::new();
    objc_retain(&mut st, Some(A));
    objc_release(&mut st, Some(A));
    objc_release(&mut st, Some(A));
    assert_eq!(objc_store_weak(&mut st, SLOT, None, Some(A)), None);
    assert_eq!(objc_init_weak(&mut st, SLOT, None), None);
}

#[test]
fn destroy_weak_unregisters() {
    let mut st = SideTable::new();
    let slot = objc_init_weak(&mut st, SLOT, Some(A));
    objc_destroy_weak(&mut st, SLOT, slot);
    assert_eq!(dealloc_locations(objc_release(&mut st, Some(A))), Some(vec![]));
}

#[test]
fn load_weak_retains_and_autoreleases() {
    let mut st = SideTable::new();
    let mut pools = AutoreleasePools::new();
    let token = objc_autorelease_pool_push(&mut pools);
    let slot = objc_init_weak(&mut st, SLOT, Some(A));
    assert_eq!(objc_load_weak(&mut st, &mut pools, slot), Some(A));
    assert_eq!(objc_retain_count(&st, Some(A)), 2);
    assert_eq!(objc_load_weak(&mut st, &mut pools, None), None);
    assert_eq!(objc_autorelease_pool_pop(&mut pools, token), vec![A]);
}

#[test]
fn load_weak_retained_counts() {
    let mut st = SideTable::new();
    assert_eq!(objc_load_weak_retained(&mut st, Some(B)), Some(B));
    assert_eq!(objc_retain_count(&st, Some(B)), 2);
    assert_eq!(objc_load_weak_retained(&mut st, None), None);
}

#[test]
fn autorelease_pool_releases_on_pop() {
    let mut pools = AutoreleasePools::new();
    let token = objc_autorelease_pool_push(&mut pools);
    assert_eq!(token, 0);
    assert_eq!(objc_autorelease(&mut pools, Some(A)), Some(A));
    assert_eq!(objc_autorelease(&mut pools, Some(B)), Some(B));
    assert_eq!(objc_autorelease(&mut pools, None), None);
    assert_eq!(objc_autorelease_pool_pop(&mut pools, token), vec![B, A], "last in, first released");
    assert!(pools.stack.is_empty());
}

#[test]
fn nested_pools_drain_inner_first() {
    let mut pools = AutoreleasePools::new();
    let outer = objc_autorelease_pool_push(&mut pools);
    objc_autorelease(&mut pools, Some(A));
    let inner = objc_autorelease_pool_push(&mut pools);
    assert_eq!(inner, 1);
    objc_autorelease(&mut pools, Some(B));
    assert_eq!(objc_autorelease_pool_pop(&mut pools, inner), vec![B]);
    assert_eq!(pools.stack.len(), 1);
    let inner2 = objc_autorelease_pool_push(&mut pools);
    objc_autorelease(&mut pools, Some(B));
    assert_eq!(inner2, 1);
    assert_eq!(objc_autorelease_pool_pop(&mut pools, outer), vec![B, A]);
    assert!(pools.stack.is_empty());
}

#[test]
fn autorelease_without_pool_keeps_nothing() {
    let mut pools = AutoreleasePools::new();
    assert_eq!(objc_autorelease(&mut pools, Some(A)), Some(A));
    assert!(pools.stack.is_empty());
    assert_eq!(objc_autorelease_pool_pop(&mut pools, 0), Vec::<ObjcPtr>::new());
}

#[test]
fn pop_to_deeper_token_changes_nothing() {
    let mut pools = AutoreleasePools::new();
    objc_autorelease_pool_push(&mut pools);
    objc_autorelease(&mut pools, Some(A));
    assert_eq!(objc_autorelease_pool_pop(&mut pools, 5), Vec::<ObjcPtr>::new());
    assert_eq!(pools.stack.len(), 1);
}

#[test]
fn send_ptr_keeps_address() {
    let p: SendPtr<u8> = SendPtr::new(0x1234);
    let q = p;
    assert_eq!(p.get(), 0x1234);
    assert_eq!(q.get(), 0x1234);
}
