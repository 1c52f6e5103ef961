//! Domain types of the auction engine.
//!
//! Accounts, times and auction ids are plain `u64` values; bid amounts are
//! `u128` ledger balances.  Amounts shown to a presentation layer are clamped
//! into `u64` and cached on the record (`parsed_bid`).

use vstd::prelude::*;

verus! {

/// A pre-authenticated caller.
pub type AccountId = u64;

/// A bid amount, in ledger units.
pub type Balance = u128;

/// A discrete time step, externally driven and strictly increasing.
pub type BlockNumber = u64;

/// An auction's identifier; assigned from a monotone counter, never reused.
pub type AuctionId = u64;

/// The ordered numeric payload carried by an auction; its domain meaning is
/// opaque to the engine.
pub type GeneralInfo = u64;

/// Errors returned by the engine's operations.
#[derive(Clone, Copy, PartialEq, Eq, Debug)]
pub enum Error {
    /// The named auction is not in the ledger.
    AuctionNotExist,
    /// A live bid did not beat the leading bid (or a first bid was zero).
    InvalidBidPrice,
    /// The acceptance policy declined the bid.
    BidNotAccepted,
    /// The caller does not own the auction it tried to change.
    PermissionError,
    /// A start-time change was asked for once the start had passed.
    AuctionAlreadyLive,
    /// A schedule change would not leave the end strictly after the start.
    InvalidSchedule,
    /// The auction is frozen because a bid has been accepted on it.
    CannotUpdateActiveAuction,
    /// The account's available balance does not cover the escrow.
    EscrowReserveFailed,
    /// A payout found less held than owed and was aborted.
    EscrowOverdraft,
    /// Minting compensation for an unreserve shortfall failed.
    MintingFailed,
    /// A plain balance transfer could not be completed.
    TransferFailed,
}

/// Signals emitted for observability; the engine appends them to its log and
/// never reads them back.
#[derive(Clone, Copy, PartialEq, Eq, Debug)]
pub enum Event {
    /// A pre-start bid was queued: (bidder, amount, auction).
    BidQueued(AccountId, Balance, AuctionId),
    /// A live bid was accepted: (auction, bidder, amount).
    Bid(AuctionId, AccountId, Balance),
    /// A queued bid was auto-placed at start: (auction, bidder, amount).
    BidQueuedPlaced(AuctionId, AccountId, Balance),
    /// An auction was created:
    /// (auction, creator, counterparty, start, end, timestamp, cargo, cargo in TEU).
    AuctionCreated(
        AuctionId,
        AccountId,
        AccountId,
        BlockNumber,
        BlockNumber,
        GeneralInfo,
        GeneralInfo,
        GeneralInfo,
    ),
    /// An auction was updated; the old then the new
    /// (timestamp, cargo, TEU, start, end).
    AuctionUpdated(
        AuctionId,
        GeneralInfo,
        GeneralInfo,
        GeneralInfo,
        BlockNumber,
        BlockNumber,
        GeneralInfo,
        GeneralInfo,
        GeneralInfo,
        BlockNumber,
        BlockNumber,
    ),
    /// An auction ended with a winner: (winner, auction).
    AuctionEndDecided(AccountId, AuctionId),
    /// An auction ended with no bid ever accepted.
    AuctionEndUndecided(AuctionId),
    /// An auction was removed by its creator.
    AuctionDeleted(AuctionId),
}

/// The payload an auction sells: a timestamp and two cargo measures.
#[derive(Clone, Copy, PartialEq, Eq, Debug)]
pub struct AuctionCoreInfo {
    /// Scheduled time of the slot, opaque to the engine.
    pub timestamp: GeneralInfo,
    /// Cargo measures (number of containers, number in TEU).
    pub cargo: (GeneralInfo, GeneralInfo),
}

/// One auction record.
#[derive(Clone, Copy, PartialEq, Eq, Debug)]
pub struct AuctionInfo {
    /// Creator of the auction.
    pub creator: AccountId,
    /// Counterparty the auctioned slot originates from.
    pub slot_origin: AccountId,
    /// Current leading bid, `None` until a bid is accepted.
    pub bid: Option<(AccountId, Balance)>,
    /// Display-safe cache of the leading bid's escrow delta, clamped to `u64`.
    pub parsed_bid: Option<u64>,
    /// Core payload.
    pub core: AuctionCoreInfo,
    /// First time step at which the auction is live.
    pub start: BlockNumber,
    /// Time step at which the auction settles, if scheduled.
    pub end: Option<BlockNumber>,
}

/// A bid submitted before its auction's start, escrowed at submission and
/// auto-placed when time reaches the start.
#[derive(Clone, Copy, PartialEq, Eq, Debug)]
pub struct QueuedBid {
    /// The queued (bidder, amount) pair.
    pub bid: (AccountId, Balance),
    /// The auction the bid is destined for.
    pub auction_id: AuctionId,
}

/// An update request: each `Some` field replaces the record's counterpart.
#[derive(Clone, Copy, PartialEq, Eq, Debug)]
pub struct AuctionUpdateInfo {
    /// Replacement for the payload's timestamp.
    pub timestamp: Option<GeneralInfo>,
    /// Replacement for the first cargo measure.
    pub num_con: Option<GeneralInfo>,
    /// Replacement for the second cargo measure.
    pub num_teu: Option<GeneralInfo>,
}

/// Snapshots from before and after an update, for change auditing.
#[derive(Clone, Copy, PartialEq, Eq, Debug)]
pub struct AuctionUpdateComplete {
    /// The record as it stood before the update.
    pub old: AuctionInfo,
    /// The record as persisted by the update.
    pub new: AuctionInfo,
}

/// What the acceptance policy decided about a new bid.
#[derive(Clone, Copy, PartialEq, Eq, Debug)]
pub struct OnNewBidResult {
    /// Whether the bid is accepted.
    pub accept_bid: bool,
    /// `None`: keep the end time; `Some(None)`: clear it;
    /// `Some(Some(t))`: move it to `t`.
    pub auction_end: Option<Option<BlockNumber>>,
}

/// The pluggable acceptance policy.  Implementations decide bid acceptance
/// (with an optional end-time extension) and observe settlements; the engine
/// assumes nothing about their answers.
pub trait AuctionHandler {
    /// Called with every price-valid live bid and the previous leading bid.
    fn on_new_bid(
        now: BlockNumber,
        id: AuctionId,
        new_bid: (AccountId, Balance),
        last_bid: Option<(AccountId, Balance)>,
    ) -> OnNewBidResult;

    /// Called once per auction at settlement, with the winner if any; payout
    /// logic, if any, belongs to the implementation.
    fn on_auction_ended(
        id: AuctionId,
        recipients: (AccountId, AccountId),
        winner: Option<(AccountId, Balance)>,
    );
}

/// Display projection of an auction record: the raw leading amount is
/// replaced by the clamped display cache.
#[derive(Clone, Copy, PartialEq, Eq, Debug)]
pub struct UIAuctionInfo {
    /// Creator of the auction.
    pub slot_owner: AccountId,
    /// Counterparty the slot originates from.
    pub slot_origin: AccountId,
    /// Slot time.
    pub slot_time: GeneralInfo,
    /// Cargo measure of the slot.
    pub slot_num_cargo: GeneralInfo,
    /// Cargo measure in TEU.
    pub slot_num_teu: GeneralInfo,
    /// Whether time has reached the auction's start.
    pub auction_is_live: bool,
    /// Leading bidder with the display-safe amount.
    pub auction_highest_bid: Option<(AccountId, u64)>,
    /// Scheduled end, if any.
    pub auction_end_time: Option<BlockNumber>,
}

} // verus!
