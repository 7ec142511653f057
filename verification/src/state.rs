//! The cache policy behind every endpoint: when a cached snapshot is served as it is, when it
//! is served while a replacement is built behind it, and when a request must wait for a build;
//! and the claim that keeps to one background rebuild per dimensionality.

use vstd::prelude::*;

verus! {

broadcast use vstd::seq_lib::group_seq_properties;

/// What a request does about the cached snapshot.
pub enum CacheAction {
    /// Serve the cached snapshot; it is fresh.
    Serve,
    /// Serve the cached snapshot, which has expired, and rebuild it in the background.
    ServeAndRefresh,
    /// Build a snapshot now and serve that.
    Build,
}

/// The action for a request: a forced refresh, a cold cache, or a time-to-live of zero (caching
/// disabled) builds; otherwise the snapshot is served, with a background rebuild once its age
/// has reached the time-to-live.
pub open spec fn lookup_action(force: bool, age: Option<u128>, ttl: u128) -> CacheAction {
    if force || ttl == 0 {
        CacheAction::Build
    } else {
        match age {
            None => CacheAction::Build,
            Some(a) => if a < ttl {
                CacheAction::Serve
            } else {
                CacheAction::ServeAndRefresh
            },
        }
    }
}

/// Decide what a request does, given whether it forces a refresh, the age of the cached
/// snapshot for its dimensionality (if any), and the time-to-live (same unit as the age).
pub fn plan_lookup(force: bool, age: Option<u128>, ttl: u128) -> (a: CacheAction)
    ensures
        a == lookup_action(force, age, ttl),
{
    if force || ttl == 0 {
        return CacheAction::Build;
    }
    match age {
        None => CacheAction::Build,
        Some(a) => if a < ttl {
            CacheAction::Serve
        } else {
            CacheAction::ServeAndRefresh
        },
    }
}

/// The cache policy: a forced refresh, a cold cache and a time-to-live of zero build; a
/// snapshot younger than the time-to-live is served as it is; and one that has reached it is
/// served, however old, while a rebuild runs behind it. A request never waits for a build
/// while a snapshot is cached and caching is on, and never triggers one needlessly.
pub proof fn cache_policy(force: bool, age: Option<u128>, ttl: u128)
    ensures
        force ==> lookup_action(force, age, ttl) == CacheAction::Build,
        ttl == 0 ==> lookup_action(force, age, ttl) == CacheAction::Build,
        age is None ==> lookup_action(force, age, ttl) == CacheAction::Build,
        forall|a: u128|
            !force && ttl > 0 && age == Some(a) && a < ttl ==> lookup_action(force, age, ttl)
                == CacheAction::Serve,
        forall|a: u128|
            !force && ttl > 0 && age == Some(a) && a >= ttl ==> lookup_action(force, age, ttl)
                == CacheAction::ServeAndRefresh,
{
}

/// Whether a claim on `dims` succeeds when `claimed` are in flight: only when it is not one of them.
pub open spec fn claim_wins(claimed: Set<u8>, dims: u8) -> bool {
    !claimed.contains(dims)
}

/// The rebuilds in flight after a claim on `dims`, won or lost.
pub open spec fn after_claim(claimed: Set<u8>, dims: u8) -> Set<u8> {
    claimed.insert(dims)
}

/// The rebuilds in flight after the claim on `dims` is released.
pub open spec fn after_release(claimed: Set<u8>, dims: u8) -> Set<u8> {
    claimed.remove(dims)
}

/// The dimensionalities with a background rebuild in flight.
pub struct RefreshSlots {
    claimed: Vec<u8>,
}

impl RefreshSlots {
    pub closed spec fn claimed(&self) -> Set<u8> {
        self.claimed@.to_set()
    }

    #[verifier::type_invariant]
    closed spec fn unique(self) -> bool {
        self.claimed@.no_duplicates()
    }

    pub fn new() -> (s: RefreshSlots)
        ensures
            s.claimed() == Set::<u8>::empty(),
    {
        let s = RefreshSlots { claimed: Vec::new() };
        assert(s.claimed() =~= Set::<u8>::empty());
        s
    }

    /// Claim the rebuild of `dims`. Succeeds, and records the claim, only when no rebuild of
    /// `dims` is in flight.
    pub fn try_claim(&mut self, dims: u8) -> (won: bool)
        ensures
            won == claim_wins(old(self).claimed(), dims),
            final(self).claimed() == after_claim(old(self).claimed(), dims),
    {
        proof {
            use_type_invariant(&*self);
        }
        let mut i: usize = 0;
        while i < self.claimed.len()
            invariant
                i <= self.claimed@.len(),
                forall|k: int| 0 <= k < i ==> self.claimed@[k] != dims,
            decreases self.claimed@.len() - i,
        {
            if self.claimed[i] == dims {
                assert(self.claimed@.contains(dims));
                assert(self.claimed().insert(dims) =~= self.claimed());
                return false;
            }
            i = i + 1;
        }
        let ghost before = self.claimed@;
        let mut claimed: Vec<u8> = Vec::new();
        std::mem::swap(&mut claimed, &mut self.claimed);
        claimed.push(dims);
        proof {
            assert(!before.contains(dims));
            assert(claimed@ == before.push(dims));
            assert(claimed@.no_duplicates());
            assert forall|x: u8| #[trigger] claimed@.to_set().contains(x) <==> before.to_set().insert(dims).contains(x) by {
                if claimed@.contains(x) && x != dims {
                    let p = choose|p: int| 0 <= p < claimed@.len() && claimed@[p] == x;
                    assert(before[p] == x);
                }
                if before.contains(x) {
                    let p = choose|p: int| 0 <= p < before.len() && before[p] == x;
                    assert(claimed@[p] == x);
                }
                if x == dims {
                    assert(claimed@[before.len() as int] == x);
                }
            }
            assert(claimed@.to_set() =~= before.to_set().insert(dims));
        }
        self.claimed = claimed;
        true
    }

    /// Give up the claim on `dims` once its rebuild has finished.
    pub fn release(&mut self, dims: u8)
        ensures
            final(self).claimed() == after_release(old(self).claimed(), dims),
    {
        proof {
            use_type_invariant(&*self);
        }
        let mut i: usize = 0;
        while i < self.claimed.len()
            invariant
                i <= self.claimed@.len(),
                self.claimed@ == old(self).claimed@,
                self.claimed@.no_duplicates(),
                forall|k: int| 0 <= k < i ==> self.claimed@[k] != dims,
            decreases self.claimed@.len() - i,
        {
            if self.claimed[i] == dims {
                let ghost before = self.claimed@;
                let mut claimed: Vec<u8> = Vec::new();
                std::mem::swap(&mut claimed, &mut self.claimed);
                claimed.remove(i);
                proof {
                    assert(claimed@ == before.remove(i as int));
                    assert forall|a: int, b: int| 0 <= a < b < claimed@.len() implies claimed@[a]
                        != claimed@[b] by {
                        let a0 = if a < i { a } else { a + 1 };
                        let b0 = if b < i { b } else { b + 1 };
                        assert(claimed@[a] == before[a0] && claimed@[b] == before[b0]);
                    }
                    assert forall|x: u8| #[trigger] claimed@.to_set().contains(x) <==> before.to_set().remove(dims).contains(x) by {
                        if claimed@.contains(x) {
                            let p = choose|p: int| 0 <= p < claimed@.len() && claimed@[p] == x;
                            let p0 = if p < i { p } else { p + 1 };
                            assert(before[p0] == x);
                            assert(x != dims);
                        }
                        if before.contains(x) && x != dims {
                            let p = choose|p: int| 0 <= p < before.len() && before[p] == x;
                            assert(p != i);
                            let q = if p < i { p } else { p - 1 };
                            assert(claimed@[q] == x);
                        }
                    }
                    assert(claimed@.to_set() =~= before.to_set().remove(dims));
                }
                self.claimed = claimed;
                return;
            }
            i = i + 1;
        }
        proof {
            assert(!self.claimed@.contains(dims));
            assert(self.claimed().remove(dims) =~= self.claimed());
        }
    }
}

/// While a rebuild of `dims` is in flight, a second claim on it fails and changes nothing: a
/// burst of requests after the time-to-live lapses starts one rebuild, not one each.
pub proof fn second_claim_fails(slots: RefreshSlots, dims: u8)
    ensures
        !claim_wins(after_claim(slots.claimed(), dims), dims),
        after_claim(after_claim(slots.claimed(), dims), dims) == after_claim(slots.claimed(), dims),
{
    assert(after_claim(after_claim(slots.claimed(), dims), dims) =~= after_claim(slots.claimed(), dims));
}

/// Once the claim on `dims` is released, the next claim on it succeeds again.
pub proof fn release_reopens(slots: RefreshSlots, dims: u8)
    ensures
        claim_wins(after_release(after_claim(slots.claimed(), dims), dims), dims),
{
}

/// Claims on different dimensionalities do not block each other: the 2D and 3D snapshots are
/// rebuilt independently.
pub proof fn claims_are_independent(slots: RefreshSlots, dims: u8, other: u8)
    requires
        dims != other,
    ensures
        claim_wins(after_claim(slots.claimed(), dims), other) == claim_wins(slots.claimed(), other),
        after_release(after_claim(slots.claimed(), dims), other).contains(dims),
{
}

} // verus!
