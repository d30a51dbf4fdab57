//! The pool registry: a store of pools keyed by pool address, mutated only
//! by whole-set replacement and read only by whole-set snapshot.
//!
//! `replace` validates every candidate before installing any; the first
//! invalid candidate rejects the whole call and leaves the store untouched.
//! Among candidates that share an address the last one wins, as a keyed
//! store overwrites earlier entries.

use vstd::prelude::*;

use crate::pool::{pool_valid, pools_valid, EngineError, Pool, PoolView};

verus! {

/// The views of a sequence of pools.
pub open spec fn pool_views(pools: Seq<Pool>) -> Seq<PoolView> {
    pools.map(|i: int, p: Pool| p@)
}

/// The failure `replace` reports for one candidate, if any: a self-loop is
/// reported before an out-of-range fee.
pub open spec fn candidate_error(p: PoolView) -> Option<EngineError> {
    if p.token0.address == p.token1.address {
        Some(EngineError::SelfReferencingPool)
    } else if p.fee > 1_000_000 {
        Some(EngineError::FeeOutOfRange)
    } else {
        None
    }
}

/// The error of the first invalid candidate, in input order.
pub open spec fn first_error(pools: Seq<PoolView>) -> Option<EngineError>
    decreases pools.len(),
{
    if pools.len() == 0 {
        None
    } else if candidate_error(pools[0]) is Some {
        candidate_error(pools[0])
    } else {
        first_error(pools.skip(1))
    }
}

/// No two pools of the sequence share an address.
pub open spec fn distinct_addresses(pools: Seq<PoolView>) -> bool {
    forall|i: int, j: int|
        0 <= i < j < pools.len() ==> pools[i].address != pools[j].address
}

/// `v` is the last candidate carrying its address, in input order.
pub open spec fn last_occurrence(candidates: Seq<PoolView>, v: PoolView) -> bool {
    exists|i: int|
        0 <= i < candidates.len() && candidates[i] == v && (forall|j: int|
            i < j < candidates.len() ==> (#[trigger] candidates[j]).address != v.address)
}

/// What a successful replacement installs: pools with pairwise distinct
/// addresses, one for each candidate address, each the last candidate that
/// carried its address.
pub open spec fn installed_from(candidates: Seq<PoolView>, installed: Seq<PoolView>) -> bool {
    &&& distinct_addresses(installed)
    &&& forall|k: int|
        0 <= k < installed.len() ==> last_occurrence(candidates, #[trigger] installed[k])
    &&& forall|i: int|
        0 <= i < candidates.len() ==> exists|k: int|
            0 <= k < installed.len() && (#[trigger] candidates[i]).address
                == installed[k].address
}

/// The registry: a complete set of validated pools.
pub struct PoolRegistry {
    pub pools: Vec<Pool>,
}

impl View for PoolRegistry {
    type V = Seq<PoolView>;

    open spec fn view(&self) -> Seq<PoolView> {
        pool_views(self.pools@)
    }
}

impl PoolRegistry {
    /// All installed pools are valid and no two share an address.
    pub open spec fn wf(&self) -> bool {
        &&& pools_valid(self@)
        &&& distinct_addresses(self@)
    }

    /// An empty registry.
    pub fn new() -> (r: PoolRegistry)
        ensures
            r@ =~= Seq::<PoolView>::empty(),
            r.wf(),
    {
        PoolRegistry { pools: Vec::new() }
    }

    /// Replaces the whole pool set with the candidates, all or nothing:
    /// every candidate is validated before any is installed, and on the
    /// first invalid candidate the call fails with its error and the
    /// previous set stays installed in full.
    pub fn replace(&mut self, candidates: Vec<Pool>) -> (r: Result<(), EngineError>)
        ensures
            r is Ok <==> pools_valid(pool_views(candidates@)),
            r matches Err(e) ==> final(self)@ == old(self)@ && Some(e) == first_error(
                pool_views(candidates@),
            ),
            r is Ok ==> installed_from(pool_views(candidates@), final(self)@)
                && final(self).wf(),
    {
        match build_installed(&candidates) {
            Ok(pools) => {
                self.pools = pools;
                Ok(())
            },
            Err(e) => Err(e),
        }
    }

    /// A consistent, point-in-time copy of the whole pool set.
    pub fn snapshot(&self) -> (r: Vec<Pool>)
        ensures
            pool_views(r@) == self@,
    {
        clone_pools(&self.pools)
    }
}

/// Validates every candidate and, when all pass, builds the set to install:
/// later candidates overwrite earlier ones that carry the same address.
pub fn build_installed(candidates: &Vec<Pool>) -> (r: Result<Vec<Pool>, EngineError>)
    ensures
        r is Ok <==> pools_valid(pool_views(candidates@)),
        r matches Err(e) ==> Some(e) == first_error(pool_views(candidates@)),
        r matches Ok(pools) ==> installed_from(pool_views(candidates@), pool_views(pools@))
            && pools_valid(pool_views(pools@)) && distinct_addresses(pool_views(pools@)),
{
    let ghost cv = pool_views(candidates@);
    proof {
        assert(cv.skip(0) =~= cv);
    }
    // Validation pass: find the first invalid candidate, if any.
    let mut i: usize = 0;
    while i < candidates.len()
        invariant
            0 <= i <= candidates.len(),
            cv == pool_views(candidates@),
            forall|t: int| 0 <= t < i ==> pool_valid(#[trigger] cv[t]),
            first_error(cv) == first_error(cv.skip(i as int)),
        decreases candidates.len() - i,
    {
        let p = &candidates[i];
        proof {
            assert(cv[i as int] == candidates@[i as int]@);
            assert(cv.skip(i as int)[0] == cv[i as int]);
            assert(cv.skip(i as int).skip(1) =~= cv.skip(i as int + 1));
        }
        if p.token0.address == p.token1.address {
            proof {
                assert(!pool_valid(cv[i as int]));
            }
            return Err(EngineError::SelfReferencingPool);
        }
        if p.fee > 1_000_000 {
            proof {
                assert(!pool_valid(cv[i as int]));
            }
            return Err(EngineError::FeeOutOfRange);
        }
        i = i + 1;
    }
    proof {
        assert(cv.skip(candidates@.len() as int) =~= Seq::<PoolView>::empty());
    }
    // Install pass: keep the last candidate for each address.
    let mut installed: Vec<Pool> = Vec::new();
    let mut i: usize = 0;
    while i < candidates.len()
        invariant
            0 <= i <= candidates.len(),
            cv == pool_views(candidates@),
            pools_valid(cv),
            distinct_addresses(pool_views(installed@)),
            forall|k: int|
                0 <= k < installed@.len() ==> last_occurrence(
                    cv.take(i as int),
                    #[trigger] pool_views(installed@)[k],
                ),
            forall|t: int|
                0 <= t < i ==> exists|k: int|
                    0 <= k < installed@.len() && (#[trigger] cv[t]).address == pool_views(
                        installed@,
                    )[k].address,
        decreases candidates.len() - i,
    {
        let ghost iv_old = pool_views(installed@);
        let p = candidates[i].clone();
        proof {
            assert(cv[i as int] == candidates@[i as int]@);
        }
        let slot = find_by_address(&installed, &p.address);
        let ghost overwrote: Option<int> = match slot {
            Some(j) => Some(j as int),
            None => None,
        };
        match slot {
            Some(j) => {
                let elem = vstd::std_specs::vec::vec_index_mut(&mut installed, j);
                *elem = p;
                proof {
                    assert(pool_views(installed@) =~= iv_old.update(j as int, cv[i as int]));
                }
            },
            None => {
                installed.push(p);
                proof {
                    assert(pool_views(installed@) =~= iv_old.push(cv[i as int]));
                }
            },
        }
        proof {
            let iv_new = pool_views(installed@);
            let prefix_old = cv.take(i as int);
            let prefix_new = cv.take(i as int + 1);
            assert(prefix_new[i as int] == cv[i as int]);
            assert forall|t: int| 0 <= t < i implies (#[trigger] prefix_new[t])
                == prefix_old[t] by {}
            // Every untouched entry differs from the new candidate's address.
            assert forall|k: int|
                0 <= k < iv_new.len() && (overwrote != Some(k)) && k < iv_old.len() implies (
            #[trigger] iv_new[k]).address != cv[i as int].address by {
                match overwrote {
                    Some(j) => {
                        assert(iv_old[j].address == cv[i as int].address);
                        assert(iv_old[k].address != iv_old[j].address);
                    },
                    None => {},
                }
            }
            assert forall|k: int| 0 <= k < iv_new.len() implies last_occurrence(
                prefix_new,
                #[trigger] iv_new[k],
            ) by {
                if overwrote == Some(k) || k >= iv_old.len() {
                    // The entry written this round: the candidate itself is
                    // its own last occurrence in the extended prefix.
                    assert(iv_new[k] == cv[i as int]);
                } else {
                    // An untouched entry: its address differs from the new
                    // candidate's, so it stays a last occurrence.
                    assert(last_occurrence(prefix_old, iv_old[k]));
                    let w = choose|w: int|
                        0 <= w < prefix_old.len() && prefix_old[w] == iv_old[k] && (forall|
                            j2: int,
                        |
                            w < j2 < prefix_old.len() ==> (#[trigger] prefix_old[j2]).address
                                != iv_old[k].address);
                    assert(prefix_new[w] == iv_old[k]);
                    assert forall|j2: int| w < j2 < prefix_new.len() implies (
                    #[trigger] prefix_new[j2]).address != iv_new[k].address by {
                        if j2 < i {
                            assert(prefix_new[j2] == prefix_old[j2]);
                        } else {
                            assert(prefix_new[j2] == cv[i as int]);
                        }
                    }
                }
            }
            // Distinctness and address coverage survive the write.
            assert forall|k1: int, k2: int| 0 <= k1 < k2 < iv_new.len() implies iv_new[k1].address
                != iv_new[k2].address by {
                match overwrote {
                    Some(j) => {
                        assert(iv_old[j].address == cv[i as int].address);
                    },
                    None => {},
                }
            }
            assert forall|t: int| 0 <= t <= i implies exists|k: int|
                0 <= k < iv_new.len() && (#[trigger] cv[t]).address == iv_new[k].address by {
                if t < i {
                    let k = choose|k: int|
                        0 <= k < iv_old.len() && cv[t].address == iv_old[k].address;
                    match overwrote {
                        Some(j) => {
                            if k == j {
                                assert(cv[t].address == iv_new[j].address);
                            } else {
                                assert(cv[t].address == iv_new[k].address);
                            }
                        },
                        None => {
                            assert(cv[t].address == iv_new[k].address);
                        },
                    }
                } else {
                    match overwrote {
                        Some(j) => {
                            assert(cv[t].address == iv_new[j].address);
                        },
                        None => {
                            assert(cv[t].address == iv_new[iv_new.len() - 1].address);
                        },
                    }
                }
            }
        }
        i = i + 1;
    }
    proof {
        assert(cv.take(candidates@.len() as int) =~= cv);
    }
    Ok(installed)
}

/// The position of the pool carrying `addr`, if one does.
fn find_by_address(pools: &Vec<Pool>, addr: &String) -> (r: Option<usize>)
    ensures
        match r {
            Some(j) => 0 <= j < pools@.len() && pool_views(pools@)[j as int].address == addr@,
            None => forall|t: int|
                0 <= t < pools@.len() ==> (#[trigger] pool_views(pools@)[t]).address != addr@,
        },
{
    let mut j: usize = 0;
    while j < pools.len()
        invariant
            0 <= j <= pools@.len(),
            forall|t: int| 0 <= t < j ==> (#[trigger] pool_views(pools@)[t]).address != addr@,
        decreases pools@.len() - j,
    {
        if pools[j].address == *addr {
            proof {
                assert(pool_views(pools@)[j as int] == pools@[j as int]@);
            }
            return Some(j);
        }
        proof {
            assert(pool_views(pools@)[j as int] == pools@[j as int]@);
        }
        j = j + 1;
    }
    None
}

/// A field-for-field copy of a pool list.
fn clone_pools(pools: &Vec<Pool>) -> (r: Vec<Pool>)
    ensures
        r@ =~= pools@,
        pool_views(r@) == pool_views(pools@),
{
    let mut r: Vec<Pool> = Vec::new();
    let mut i: usize = 0;
    while i < pools.len()
        invariant
            0 <= i <= pools@.len(),
            r@.len() == i,
            forall|t: int| 0 <= t < i ==> r@[t] == pools@[t],
        decreases pools@.len() - i,
    {
        r.push(pools[i].clone());
        i = i + 1;
    }
    proof {
        assert(r@ =~= pools@);
    }
    r
}

/// Law: a whole-set replacement followed by a snapshot yields exactly the
/// candidate set, by address and field for field, whatever the input order —
/// provided the candidates are valid and no two share an address. (With a
/// shared address only the last occurrence survives, as in any keyed store.)
///
/// `replace` ensures `installed_from(candidates, installed)` and `snapshot`
/// returns the installed sequence unchanged, so this law speaks of any
/// sequence `installed_from` admits.
pub proof fn lemma_replace_then_snapshot(c: Seq<PoolView>, installed: Seq<PoolView>)
    requires
        distinct_addresses(c),
        installed_from(c, installed),
    ensures
        installed.to_set() == c.to_set(),
{
    assert forall|v: PoolView| installed.to_set().contains(v) implies c.to_set().contains(v) by {
        let k = choose|k: int| 0 <= k < installed.len() && installed[k] == v;
        assert(last_occurrence(c, v));
        let w = choose|w: int|
            0 <= w < c.len() && c[w] == v && (forall|j: int|
                w < j < c.len() ==> (#[trigger] c[j]).address != v.address);
        assert(c.contains(v));
    }
    assert forall|v: PoolView| c.to_set().contains(v) implies installed.to_set().contains(v) by {
        let i = choose|i: int| 0 <= i < c.len() && c[i] == v;
        let k = choose|k: int| 0 <= k < installed.len() && c[i].address == installed[k].address;
        assert(last_occurrence(c, installed[k]));
        let w = choose|w: int|
            0 <= w < c.len() && c[w] == installed[k] && (forall|j: int|
                w < j < c.len() ==> (#[trigger] c[j]).address != installed[k].address);
        // Two candidates with one address must be the same candidate.
        assert(w == i);
        assert(installed.contains(v));
    }
    assert(installed.to_set() =~= c.to_set());
}

} // verus!
