//! The engine: one shared pool registry behind a verified reader-writer
//! lock, whole-set replacement for writers and snapshot-isolated route
//! queries for readers.
//!
//! A query takes its snapshot once, under a read lock held only for the
//! copy, and runs the whole search against that owned copy: it never blocks
//! a concurrent replacement, and what it sees is always one complete,
//! validated pool set — never a partial update. The verified lock cannot be
//! left in a broken state, so the engine never has to surface
//! [`EngineError::PoisonedState`].

use vstd::prelude::*;
use vstd::rwlock::RwLock;

use crate::optimizer::{find_route, find_route_post, Route};
use crate::pool::{pools_valid, EngineError, Pool, PoolView};
use crate::pricing::spec_output_amount;
use crate::registry::{
    build_installed, distinct_addresses, first_error, pool_views, PoolRegistry,
};

verus! {

/// The lock's invariant: whatever registry value the lock holds is a
/// complete set of validated pools with pairwise distinct addresses.
pub open spec fn registry_inv() -> spec_fn(PoolRegistry) -> bool {
    |r: PoolRegistry| r.wf()
}

/// The composition root: an identifier and the shared registry.
pub struct ExecutionEngine {
    engine_id: String,
    pools: RwLock<PoolRegistry, spec_fn(PoolRegistry) -> bool>,
}

impl ExecutionEngine {
    /// The lock carries the registry invariant.
    pub closed spec fn wf(&self) -> bool {
        self.pools.pred() == registry_inv()
    }

    /// A fresh engine with an empty registry.
    pub fn new() -> (r: ExecutionEngine)
        ensures
            r.wf(),
    {
        let registry = PoolRegistry::new();
        proof {
            assert(registry_inv()(registry));
        }
        ExecutionEngine {
            engine_id: fresh_engine_id(),
            pools: RwLock::new(registry, Ghost(registry_inv())),
        }
    }

    /// The engine's identifier.
    pub fn engine_id(&self) -> &String {
        &self.engine_id
    }

    /// Replaces the whole pool set, all or nothing. Every candidate is
    /// validated, and the new set built, before the write lock is taken,
    /// so the critical section covers only the swap itself; on the first
    /// invalid candidate the call fails with its error and the lock is
    /// never taken, leaving the previous set installed.
    pub fn update_pools(&self, candidates: Vec<Pool>) -> (r: Result<(), EngineError>)
        requires
            self.wf(),
        ensures
            r is Ok <==> pools_valid(pool_views(candidates@)),
            r matches Err(e) ==> Some(e) == first_error(pool_views(candidates@)),
    {
        match build_installed(&candidates) {
            Ok(pools) => {
                let registry = PoolRegistry { pools };
                proof {
                    assert(registry_inv()(registry));
                }
                let (old_registry, handle) = self.pools.acquire_write();
                handle.release_write(registry);
                Ok(())
            },
            Err(e) => Err(e),
        }
    }

    /// Finds the best route from `token_in` to `token_out` for `amount_in`.
    ///
    /// The result is the full search contract against one consistent
    /// snapshot: a complete, validated pool set that a whole-set
    /// replacement installed — concurrent replacements can never make a
    /// query observe a mixture of two sets.
    pub fn optimize_route(
        &self,
        token_in: &String,
        token_out: &String,
        amount_in: u128,
    ) -> (r: Option<Route>)
        requires
            self.wf(),
        ensures
            exists|snap: Seq<PoolView>|
                pools_valid(snap) && distinct_addresses(snap) && #[trigger] find_route_post(
                    snap,
                    token_in@,
                    token_out@,
                    amount_in as int,
                    r,
                ),
    {
        let read_handle = self.pools.acquire_read();
        let registry = read_handle.borrow();
        let snapshot = registry.snapshot();
        read_handle.release_read();
        let r = find_route(&snapshot, token_in, token_out, amount_in);
        proof {
            let snap = pool_views(snapshot@);
            assert(pools_valid(snap) && distinct_addresses(snap) && find_route_post(
                snap,
                token_in@,
                token_out@,
                amount_in as int,
                r,
            ));
        }
        r
    }

    /// The default pricing policy: what comes out of `pool` for
    /// `amount_in`. Pure and deterministic; never exceeds its input and is
    /// monotonic in it.
    pub fn calculate_amount_out(pool: &Pool, amount_in: u128) -> (r: u128)
        ensures
            r == spec_output_amount(pool.fee as int, amount_in as int),
    {
        crate::pricing::calculate_amount_out(pool, amount_in)
    }
}

/// Relies on `uuid::Uuid::new_v4` and the hyphenated form its `Display`
/// writes: a fresh random identifier, 36 characters long. Nothing more is
/// assumed of a random value.
#[verifier::external_body]
fn fresh_engine_id() -> (r: String)
    ensures
        r@.len() == 36,
{
    uuid::Uuid::new_v4().to_string()
}

} // verus!
