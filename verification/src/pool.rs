//! The data model: tokens, pools, and the validity rules that the registry
//! enforces on every pool it installs.

use vstd::prelude::*;

verus! {

/// A token, identified by its address. The symbol is display-only and is
/// never used for identity.
pub struct Token {
    pub address: String,
    pub symbol: String,
}

/// Mathematical model of a [`Token`]: both fields as character sequences.
pub struct TokenView {
    pub address: Seq<char>,
    pub symbol: Seq<char>,
}

impl View for Token {
    type V = TokenView;

    open spec fn view(&self) -> TokenView {
        TokenView { address: self.address@, symbol: self.symbol@ }
    }
}

impl Clone for Token {
    fn clone(&self) -> (r: Token)
        ensures
            r == *self,
    {
        Token { address: self.address.clone(), symbol: self.symbol.clone() }
    }
}

/// A two-token market: a unique address, two distinct tokens, a fee in parts
/// per million, and a liquidity figure reserved for depth-aware pricing.
pub struct Pool {
    pub address: String,
    pub token0: Token,
    pub token1: Token,
    pub fee: u32,
    pub liquidity: u128,
}

/// Mathematical model of a [`Pool`].
pub struct PoolView {
    pub address: Seq<char>,
    pub token0: TokenView,
    pub token1: TokenView,
    pub fee: u32,
    pub liquidity: u128,
}

impl View for Pool {
    type V = PoolView;

    open spec fn view(&self) -> PoolView {
        PoolView {
            address: self.address@,
            token0: self.token0@,
            token1: self.token1@,
            fee: self.fee,
            liquidity: self.liquidity,
        }
    }
}

impl Clone for Pool {
    fn clone(&self) -> (r: Pool)
        ensures
            r == *self,
    {
        Pool {
            address: self.address.clone(),
            token0: self.token0.clone(),
            token1: self.token1.clone(),
            fee: self.fee,
            liquidity: self.liquidity,
        }
    }
}

/// A pool the registry accepts: its two tokens are distinct (no self-loop)
/// and its fee does not exceed one million parts per million.
pub open spec fn pool_valid(p: PoolView) -> bool {
    &&& p.token0.address != p.token1.address
    &&& p.fee <= 1_000_000
}

/// Every pool of the sequence is acceptable.
pub open spec fn pools_valid(pools: Seq<PoolView>) -> bool {
    forall|i: int| 0 <= i < pools.len() ==> #[trigger] pool_valid(pools[i])
}

/// The errors the engine surfaces. Validation failures reject an input
/// wholesale and leave all state untouched; `PoisonedState` is reserved for
/// unrecoverable shared-state corruption.
#[derive(Clone, Copy, Debug, PartialEq, Eq, Structural)]
pub enum EngineError {
    /// A candidate pool's two tokens carry the same address.
    SelfReferencingPool,
    /// A candidate pool's fee exceeds one million parts per million.
    FeeOutOfRange,
    /// The shared registry was found in a broken, unrecoverable state.
    PoisonedState,
    /// An order-book level's side is neither a bid nor an ask.
    UnknownSide,
}

} // verus!
