//! How much of the way to a function its context keeps.

use super::loc::{CallSite, Context};
use vstd::prelude::*;

verus! {

/// Contexts of the last `k` call sites.
#[derive(Clone, Copy, Debug, PartialEq, Eq, Structural)]
pub struct KCallSite {
    pub k: usize,
}

/// The context with one more call site, of which the last `k` are kept.
pub open spec fn extended(ctx: Seq<CallSite>, site: CallSite, k: nat) -> Seq<CallSite> {
    let all = ctx.push(site);
    if all.len() > k {
        all.skip(all.len() - k)
    } else {
        all
    }
}

impl KCallSite {
    /// Contexts of the last `k` call sites.
    pub fn new(k: usize) -> (r: Self)
        ensures
            r.k == k,
    {
        KCallSite { k }
    }

    /// The context of a callee.
    pub fn extend(&self, ctx: &Context, site: CallSite) -> (r: Context)
        ensures
            r@ == extended(ctx@, site, self.k as nat),
    {
        let mut all = ctx.duplicate();
        all.sites.push(site);
        let n: usize = all.sites.len();
        let from: usize = if n > self.k {
            n - self.k
        } else {
            0
        };
        let mut sites: Vec<CallSite> = Vec::new();
        let mut i: usize = from;
        while i < n
            invariant
                from <= i <= n,
                n == all.sites@.len(),
                sites@ == all.sites@.subrange(from as int, i as int),
            decreases n - i,
        {
            sites.push(all.sites[i]);
            i = i + 1;
            proof {
                assert(sites@ =~= all.sites@.subrange(from as int, i as int));
            }
        }
        proof {
            assert(sites@ =~= all.sites@.skip(from as int));
            assert(all.sites@.skip(0) =~= all.sites@);
        }
        Context { sites }
    }
}

/// A context never keeps more than `k` call sites; without any, all calls of a
/// function share one context.
pub proof fn contexts_are_bounded(ctx: Seq<CallSite>, site: CallSite, k: nat)
    requires
        ctx.len() <= k,
    ensures
        extended(ctx, site, k).len() <= k,
        k == 0 ==> extended(ctx, site, k) == Seq::<CallSite>::empty(),
        k > 0 ==> extended(ctx, site, k).last() == site,
{
    if k == 0 {
        assert(extended(ctx, site, k) =~= Seq::<CallSite>::empty());
    }
}

/// A context keeps the last call sites on the way: it grows by one site as long
/// as it may, and then drops the first.
pub proof fn contexts_keep_the_last_sites(ctx: Seq<CallSite>, site: CallSite, k: nat, i: int)
    requires
        ctx.len() <= k,
    ensures
        ctx.len() < k ==> extended(ctx, site, k).len() == ctx.len() + 1 && (0 <= i < ctx.len()
            ==> extended(ctx, site, k)[i] == ctx[i]),
        0 < ctx.len() == k ==> extended(ctx, site, k).len() == k && (0 < i < ctx.len()
            ==> extended(ctx, site, k)[i - 1] == ctx[i]),
{
}

} // verus!
