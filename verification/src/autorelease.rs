//! Autorelease pools.
//!
//! A stack of pools.  Pushing returns a token (the depth before the push);
//! popping to a token drains every pool pushed since, handing back their
//! objects in the order they are to be released: innermost pool first,
//! each pool's objects last-in first-out.
use vstd::prelude::*;

use crate::types::{Id, ObjcPtr};

verus! {

/// A stack of autorelease pools, each holding the objects autoreleased
/// into it in order.
pub struct AutoreleasePools {
    pub stack: Vec<Vec<ObjcPtr>>,
}

impl AutoreleasePools {
    /// The pools, outermost first, each as the sequence of its objects.
    pub open spec fn view(&self) -> Seq<Seq<ObjcPtr>> {
        self.stack@.map_values(|v: Vec<ObjcPtr>| v@)
    }

    /// An empty pool stack.
    pub fn new() -> (r: AutoreleasePools)
        ensures
            r.view().len() == 0,
    {
        AutoreleasePools { stack: Vec::new() }
    }
}

/// The pools after autoreleasing `p`: appended to the innermost pool;
/// unchanged with no pool.
pub open spec fn autoreleased(pools: Seq<Seq<ObjcPtr>>, p: ObjcPtr) -> Seq<Seq<ObjcPtr>> {
    if pools.len() == 0 {
        pools
    } else {
        pools.update(pools.len() - 1, pools.last().push(p))
    }
}

/// The objects that popping `pools` back to depth `token` releases, in
/// order: the innermost pool first, each pool last-in first-out.
pub open spec fn drained(pools: Seq<Seq<ObjcPtr>>, token: int) -> Seq<ObjcPtr>
    decreases pools.len(),
{
    if pools.len() <= token || pools.len() == 0 {
        Seq::empty()
    } else {
        pools.last().reverse() + drained(pools.drop_last(), token)
    }
}

/// Push a new, empty pool; return the token that pops back to before it.
pub fn objc_autorelease_pool_push(pools: &mut AutoreleasePools) -> (token: usize)
    ensures
        token == old(pools).view().len(),
        final(pools).view() == old(pools).view().push(Seq::empty()),
{
    let token = pools.stack.len();
    pools.stack.push(Vec::new());
    proof {
        assert(pools.view() =~= old(pools).view().push(Seq::empty()));
    }
    token
}

/// Pop the pools back to depth `token`; return the objects to release, in
/// the order they are to be released.
pub fn objc_autorelease_pool_pop(pools: &mut AutoreleasePools, token: usize) -> (r: Vec<ObjcPtr>)
    ensures
        r@ == drained(old(pools).view(), token as int),
        final(pools).view() == (if token < old(pools).view().len() {
            old(pools).view().take(token as int)
        } else {
            old(pools).view()
        }),
{
    let ghost v0 = pools.view();
    let mut out: Vec<ObjcPtr> = Vec::new();
    while pools.stack.len() > token
        invariant
            pools.view().len() <= v0.len(),
            token < v0.len() ==> token <= pools.view().len(),
            token >= v0.len() ==> pools.view() == v0,
            pools.view() == v0.take(pools.view().len() as int),
            out@ + drained(pools.view(), token as int) == drained(v0, token as int),
        decreases pools.stack@.len(),
    {
        let ghost before = pools.view();
        let pool = pools.stack.pop().unwrap();
        proof {
            assert(pools.view() =~= before.drop_last());
            assert(pool@ == before.last());
        }
        let mut i = pool.len();
        let ghost out0 = out@;
        while i > 0
            invariant
                i <= pool@.len(),
                out@ == out0 + pool@.subrange(i as int, pool@.len() as int).reverse(),
            decreases i,
        {
            i = i - 1;
            out.push(pool[i]);
            proof {
                assert(pool@.subrange(i as int, pool@.len() as int).reverse() =~= pool@.subrange(
                    i + 1,
                    pool@.len() as int,
                ).reverse().push(pool@[i as int]));
            }
        }
        proof {
            assert(pool@.subrange(0, pool@.len() as int) =~= pool@);
            assert(drained(before, token as int) == before.last().reverse() + drained(before.drop_last(), token as int));
            assert(out@ + drained(pools.view(), token as int) =~= out0 + drained(before, token as int));
            assert(pools.view() =~= v0.take(pools.view().len() as int));
        }
    }
    proof {
        if token < v0.len() {
            assert(pools.view().len() == token);
        }
        assert(drained(pools.view(), token as int) =~= Seq::<ObjcPtr>::empty());
        assert(out@ =~= out@ + drained(pools.view(), token as int));
    }
    out
}

/// Add `obj` to the innermost pool and return it.  With no pool active,
/// `obj` is returned unchanged (and never released).
pub fn objc_autorelease(pools: &mut AutoreleasePools, obj: Id) -> (r: Id)
    ensures
        r == obj,
        match obj {
            None => *final(pools) == *old(pools),
            Some(p) => final(pools).view() == autoreleased(old(pools).view(), p),
        },
{
    if let Some(p) = obj {
        let n = pools.stack.len();
        if n > 0 {
            pools.stack[n - 1].push(p);
        }
        proof {
            assert(pools.view() =~= autoreleased(old(pools).view(), p));
        }
    }
    obj
}

/// Popping back to the token of a pool drains exactly the objects
/// autoreleased into it, last first, and restores the pools below it.
pub proof fn lemma_pool_round_trip(pools: Seq<Seq<ObjcPtr>>, xs: Seq<ObjcPtr>)
    ensures
        drained(pools.push(xs), pools.len() as int) == xs.reverse(),
        pools.push(xs).take(pools.len() as int) == pools,
{
    let v = pools.push(xs);
    assert(v.drop_last() =~= pools);
    assert(drained(pools, pools.len() as int) =~= Seq::<ObjcPtr>::empty());
    assert(drained(v, pools.len() as int) =~= xs.reverse());
    assert(v.take(pools.len() as int) =~= pools);
}

/// Autoreleasing into a pool appends to it.
pub proof fn lemma_autorelease_appends(pools: Seq<Seq<ObjcPtr>>, xs: Seq<ObjcPtr>, p: ObjcPtr)
    ensures
        autoreleased(pools.push(xs), p) == pools.push(xs.push(p)),
{
    assert(autoreleased(pools.push(xs), p) =~= pools.push(xs.push(p)));
}

/// Popping to an outer token drains the inner pool first, then the outer.
pub proof fn lemma_nested_pools(pools: Seq<Seq<ObjcPtr>>, outer: Seq<ObjcPtr>, inner: Seq<ObjcPtr>)
    ensures
        drained(pools.push(outer).push(inner), pools.len() as int) == inner.reverse() + outer.reverse(),
{
    let v = pools.push(outer).push(inner);
    assert(v.drop_last() =~= pools.push(outer));
    lemma_pool_round_trip(pools, outer);
    assert(drained(pools.push(outer), pools.len() as int) == outer.reverse());
}

} // verus!
