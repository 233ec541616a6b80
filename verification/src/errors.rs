//! The caller-facing error taxonomy.

use vstd::prelude::*;

verus! {

/// Every recoverable failure an operation can report.  Validation always
/// happens before any mutation: an operation that returns one of these has
/// left its receiver unchanged, with the single documented exception of
/// trade routing, whose partial execution is part of its contract.
#[derive(Clone, Copy, Debug, PartialEq, Eq, Structural)]
pub enum AmmError {
    /// A referenced token symbol is absent from the pool's token list.
    TokenNotFound,
    /// A zero trade amount, or a magnitude beyond the fixed-point bounds
    /// (`AMOUNT_LIMIT`, `SHARES_LIMIT`, `MAX_TICKS`).
    InvalidAmount,
    /// The swap quadratic has no real root: the input is too large relative
    /// to the reserves.
    ComplexSolution,
    /// The computed output exceeds the available reserve, or a routed trade
    /// could not be fully filled across all bands.
    InsufficientLiquidity,
    /// A spot-price denominator is zero.
    DivisionByZero,
    /// A reserve or amount vector's length differs from the token count, or
    /// a token list is empty where one is required, or longer than
    /// `MAX_TOKENS`.
    LengthMismatch,
    /// A withdrawal percentage above one (the fixed-point `SCALE`).
    InvalidPercentage,
    /// A withdrawal against an unknown liquidity-provider identifier.
    LpNotFound,
    /// A withdrawal against a liquidity provider whose shares are exhausted.
    ZeroShares,
    /// An aggregated price query whose total weight is zero across all bands.
    NoLiquidityForPrice,
    /// A band index beyond the aggregator's band list.
    TickNotFound,
}

impl AmmError {
    /// A short human-readable description.
    pub fn message(&self) -> (m: &'static str)
    {
        match self {
            AmmError::TokenNotFound => "token not found in pool",
            AmmError::InvalidAmount => "amount must be positive and within bounds",
            AmmError::ComplexSolution => "swap leads to complex solution",
            AmmError::InsufficientLiquidity => "insufficient liquidity for the requested trade",
            AmmError::DivisionByZero => "division by zero: from-token is at radius",
            AmmError::LengthMismatch => "vector length does not match token count",
            AmmError::InvalidPercentage => "percentage must be within [0, 1]",
            AmmError::LpNotFound => "LP id not found",
            AmmError::ZeroShares => "LP has no shares",
            AmmError::NoLiquidityForPrice => "no liquidity for base token across ticks",
            AmmError::TickNotFound => "tick index out of range",
        }
    }
}

} // verus!
