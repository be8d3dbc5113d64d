//! Reasons an engine operation is refused.
use vstd::prelude::*;
use crate::quote::CurveErrorCode;

verus! {

/// Why an operation was refused; the whole operation is then void.
#[derive(Clone, Copy, Debug, PartialEq, Eq, Structural)]
pub enum AmmError {
    InvalidPoolId,
    UnknownPoolType,
    UnknownCurve,
    UnknownSwapType,
    NonTradeFee,
    FeeExceedsMax,
    AssetRecipientRequired,
    AssetRecipientForbidden,
    InvalidDelta,
    InvalidSpotPrice,
    QuoteFailed(CurveErrorCode),
    InvalidItemCount,
    WrongPoolType,
    NotEnoughPayment,
    OutTooLittle,
    TokenNotInPool,
    InsufficientLpBalance,
    LiquidityTooSmall,
    InternalLiquidity,
    InvalidAddedLiquidity,
    AccountNotRegistered,
    SelfTransfer,
    OnlyGovernance,
    OnlyPoolOwner,
    NotReleased,
    TradePoolWithdrawal,
    NoDepositedTokens,
    InvalidNumOutNfts,
    InvalidInputTokens,
    StorageExceeded,
    InsufficientPoolBalance,
    AttachmentRequired,
    TokenNotStaged,
    BalanceOverflow,
}

} // verus!
