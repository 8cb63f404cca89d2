use vstd::prelude::*;

verus! {

/// Every way an engine operation can be rejected.
#[derive(Clone, Copy, Debug, PartialEq, Eq, Structural)]
pub enum PerpError {
    CustomError,
    NotAuthorized,
    QueueFull,
    QueueEmpty,
    InvalidQuantity,
    InvalidAmount,
    InsufficientSpace,
    SlabFull,
    InvalidTree,
    InvalidNodeType,
    NodeIsRoot,
    NodeNotFound,
    OrderNotFound,
    MathOverflow,
    NothingToLiquidate,
    InvalidOraclePrice,
    InvalidTimestamp,
    InvalidMarketConfig,
    FundingNotDue,
    OrderNotionalTooSmall,
    InsufficientCollateral,
    WithdrawWouldLiquidate,
    InvalidSymbol,
    SerializationFailed,
    DeserializationFailed,
    Unauthorized,
    EventNotForUser,
}

} // verus!
