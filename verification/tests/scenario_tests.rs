//! Scenario and edge-case tests: the bid lifecycle from queueing through
//! settlement, each caller-facing error, and the display clamping rules.

use auction_engine::engine::Module;
use auction_engine::types::{AccountId, AuctionCoreInfo, AuctionHandler, AuctionId,
    AuctionUpdateInfo, Balance, BlockNumber, Error, Event, OnNewBidResult};

struct AcceptAll;

impl AuctionHandler for AcceptAll {
    fn on_new_bid(
        _now: BlockNumber,
        _id: AuctionId,
        _new_bid: (AccountId, Balance),
        _last_bid: Option<(AccountId, Balance)>,
    ) -> OnNewBidResult {
        OnNewBidResult { accept_bid: true, auction_end: None }
    }

    fn on_auction_ended(
        _id: AuctionId,
        _recipients: (AccountId, AccountId),
        _winner: Option<(AccountId, Balance)>,
    ) {
    }
}

struct RejectAll;

impl AuctionHandler for RejectAll {
    fn on_new_bid(
        _now: BlockNumber,
        _id: AuctionId,
        _new_bid: (AccountId, Balance),
        _last_bid: Option<(AccountId, Balance)>,
    ) -> OnNewBidResult {
        OnNewBidResult { accept_bid: false, auction_end: None }
    }

    fn on_auction_ended(
        _id: AuctionId,
        _recipients: (AccountId, AccountId),
        _winner: Option<(AccountId, Balance)>,
    ) {
    }
}

const CREATOR: u64 = 10;
const TERMINAL: u64 = 11;
const BIDDER_C: u64 = 12;
const BIDDER_D: u64 = 13;

fn env() -> Module {
    let mut m = Module::new();
    m.balances.endow(CREATOR, 1000);
    m.balances.endow(TERMINAL, 1000);
    m.balances.endow(BIDDER_C, 20000);
    m.balances.endow(BIDDER_D, 20000);
    m
}

fn step(m: &mut Module, now: &mut u64, n: u64) {
    while *now < n {
        m.on_finalize::<AcceptAll>(*now);
        *now += 1;
        m.on_initialize::<AcceptAll>(*now);
    }
}

#[test]
fn queued_bid_lifecycle_to_settlement() {
    // An auction over 10..20; a pre-start bid is escrowed and queued, placed
    // at the start, outbid while live, and settled at the end.
    let mut m = env();
    let info = AuctionCoreInfo { timestamp: 7, cargo: (2, 2) };
    let (id, _) = m.new_auction(CREATOR, TERMINAL, info, 10, Some(20));
    let mut now = 0u64;
    step(&mut m, &mut now, 5);

    assert!(m.bid::<AcceptAll>(BIDDER_C, id, 50, now).is_ok());
    assert_eq!(m.balances.free_balance(BIDDER_C), 19950);
    assert_eq!(m.balances.reserved_balance(BIDDER_C), 50);
    assert!(m.auction_info(id).unwrap().bid.is_none());

    step(&mut m, &mut now, 10);
    assert_eq!(m.auction_info(id).unwrap().bid, Some((BIDDER_C, 50)));
    assert_eq!(m.balances.reserved_balance(BIDDER_C), 50);
    assert!(m.events.iter().any(|e| *e == Event::BidQueuedPlaced(id, BIDDER_C, 50)));

    step(&mut m, &mut now, 16);
    assert!(m.bid::<AcceptAll>(BIDDER_D, id, 60, now).is_ok());
    assert_eq!(m.balances.reserved_balance(BIDDER_C), 0);
    assert_eq!(m.balances.free_balance(BIDDER_C), 20000);
    assert_eq!(m.balances.reserved_balance(BIDDER_D), 60);
    assert_eq!(m.auction_info(id).unwrap().bid, Some((BIDDER_D, 60)));

    step(&mut m, &mut now, 21);
    assert!(!m.auction_exists(id));
    assert!(m.events.iter().any(|e| *e == Event::AuctionEndDecided(BIDDER_D, id)));
}

#[test]
fn settlement_with_no_bids_is_undecided() {
    // An auction that nobody ever bids on settles undecided at its end.
    let mut m = env();
    let info = AuctionCoreInfo { timestamp: 1, cargo: (1, 1) };
    let (id, _) = m.new_auction(CREATOR, TERMINAL, info, 1, Some(30));
    let mut now = 0u64;
    step(&mut m, &mut now, 31);
    assert!(!m.auction_exists(id));
    assert!(m.events.iter().any(|e| *e == Event::AuctionEndUndecided(id)));
}

#[test]
fn lower_bid_is_rejected_without_balance_change() {
    // A bid below the leading one fails with InvalidBidPrice and moves no
    // funds.
    let mut m = env();
    let info = AuctionCoreInfo { timestamp: 1, cargo: (1, 1) };
    let (id, _) = m.new_auction(CREATOR, TERMINAL, info, 1, Some(30));
    let mut now = 0u64;
    step(&mut m, &mut now, 2);
    assert!(m.bid::<AcceptAll>(BIDDER_C, id, 50, now).is_ok());
    let events_before = m.events.len();
    assert_eq!(m.bid::<AcceptAll>(BIDDER_D, id, 40, now), Err(Error::InvalidBidPrice));
    assert_eq!(m.balances.free_balance(BIDDER_D), 20000);
    assert_eq!(m.balances.reserved_balance(BIDDER_D), 0);
    assert_eq!(m.balances.reserved_balance(BIDDER_C), 50);
    assert_eq!(m.auction_info(id).unwrap().bid, Some((BIDDER_C, 50)));
    assert_eq!(m.events.len(), events_before);
}

#[test]
fn zero_first_bid_is_rejected() {
    let mut m = env();
    let info = AuctionCoreInfo { timestamp: 1, cargo: (1, 1) };
    let (id, _) = m.new_auction(CREATOR, TERMINAL, info, 1, Some(30));
    assert_eq!(m.bid::<AcceptAll>(BIDDER_C, id, 0, 5), Err(Error::InvalidBidPrice));
}

#[test]
fn policy_rejection_is_a_no_op() {
    // When the acceptance policy declines, the record, schedule, balances
    // and event log are identical before and after the call.
    let mut m = env();
    let info = AuctionCoreInfo { timestamp: 1, cargo: (1, 1) };
    let (id, _) = m.new_auction(CREATOR, TERMINAL, info, 1, Some(30));
    let record_before = m.auction_info(id);
    let free_before = m.balances.free_balance(BIDDER_C);
    let events_before = m.events.clone();
    assert_eq!(m.bid::<RejectAll>(BIDDER_C, id, 50, 5), Err(Error::BidNotAccepted));
    assert_eq!(m.auction_info(id), record_before);
    assert_eq!(m.balances.free_balance(BIDDER_C), free_before);
    assert_eq!(m.balances.reserved_balance(BIDDER_C), 0);
    assert_eq!(m.events, events_before);
}

#[test]
fn update_fails_once_bid_upon() {
    // A single accepted bid freezes the auction for every kind of update.
    let mut m = env();
    let info = AuctionCoreInfo { timestamp: 1, cargo: (1, 1) };
    let (id, _) = m.new_auction(CREATOR, TERMINAL, info, 1, Some(30));
    assert!(m.bid::<AcceptAll>(BIDDER_C, id, 50, 5).is_ok());
    let patch = AuctionUpdateInfo { timestamp: Some(9), num_con: None, num_teu: None };
    assert_eq!(
        m.update_auction(id, CREATOR, patch, None, None, 5),
        Err(Error::CannotUpdateActiveAuction)
    );
    let no_patch = AuctionUpdateInfo { timestamp: None, num_con: None, num_teu: None };
    assert_eq!(
        m.update_auction(id, CREATOR, no_patch, Some(40), Some(60), 5),
        Err(Error::CannotUpdateActiveAuction)
    );
}

#[test]
fn update_permissions_and_timing() {
    let mut m = env();
    let info = AuctionCoreInfo { timestamp: 1, cargo: (1, 1) };
    let (id, _) = m.new_auction(CREATOR, TERMINAL, info, 10, Some(30));
    let patch = AuctionUpdateInfo { timestamp: Some(2), num_con: Some(3), num_teu: Some(4) };
    assert_eq!(
        m.update_auction(99, CREATOR, patch, None, None, 5),
        Err(Error::AuctionNotExist)
    );
    assert_eq!(
        m.update_auction(id, TERMINAL, patch, None, None, 5),
        Err(Error::PermissionError)
    );
    // A start change is refused once the auction is live...
    assert_eq!(
        m.update_auction(id, CREATOR, patch, Some(40), None, 12),
        Err(Error::AuctionAlreadyLive)
    );
    // ... and when the proposed start has already passed.
    assert_eq!(
        m.update_auction(id, CREATOR, patch, Some(3), None, 5),
        Err(Error::AuctionAlreadyLive)
    );
    // A valid update applies the patch and returns both snapshots.
    let done = m.update_auction(id, CREATOR, patch, Some(12), Some(40), 5).unwrap();
    assert_eq!(done.old.core.timestamp, 1);
    assert_eq!(done.new.core.timestamp, 2);
    assert_eq!(done.new.core.cargo, (3, 4));
    assert_eq!(done.new.start, 12);
    assert_eq!(done.new.end, Some(40));
    assert_eq!(m.auction_info(id).unwrap().start, 12);
}

#[test]
fn schedule_update_must_keep_end_after_start() {
    // The end-after-start invariant is checked at any schedule update: an
    // end patch at or before the start, or a start patch moved to or past
    // the end, is rejected with no change.
    let mut m = env();
    let info = AuctionCoreInfo { timestamp: 1, cargo: (1, 1) };
    let (id, _) = m.new_auction(CREATOR, TERMINAL, info, 10, Some(30));
    let no_patch = AuctionUpdateInfo { timestamp: None, num_con: None, num_teu: None };
    let record_before = m.auction_info(id);
    assert_eq!(
        m.update_auction(id, CREATOR, no_patch, None, Some(10), 5),
        Err(Error::InvalidSchedule)
    );
    assert_eq!(
        m.update_auction(id, CREATOR, no_patch, None, Some(7), 5),
        Err(Error::InvalidSchedule)
    );
    assert_eq!(
        m.update_auction(id, CREATOR, no_patch, Some(30), None, 5),
        Err(Error::InvalidSchedule)
    );
    assert_eq!(m.auction_info(id), record_before);
    // Moving both together is fine as long as the end stays after the start.
    assert!(m.update_auction(id, CREATOR, no_patch, Some(40), Some(41), 5).is_ok());
    assert_eq!(m.auction_info(id).unwrap().start, 40);
    assert_eq!(m.auction_info(id).unwrap().end, Some(41));
    // The swallowing wrapper drops the same rejection silently.
    let events_before = m.events.len();
    assert!(m.ext_update_auction(CREATOR, id, None, None, None, None, Some(12), 5).is_ok());
    assert_eq!(m.auction_info(id).unwrap().end, Some(41));
    assert_eq!(m.events.len(), events_before);
}

#[test]
fn created_ids_are_distinct_and_increasing() {
    let mut m = env();
    let info = AuctionCoreInfo { timestamp: 1, cargo: (1, 1) };
    let (id0, _) = m.new_auction(CREATOR, TERMINAL, info, 1, Some(10));
    let (id1, _) = m.new_auction(CREATOR, TERMINAL, info, 2, None);
    let (id2, _) = m.new_auction(CREATOR, TERMINAL, info, 3, Some(12));
    assert_eq!((id0, id1, id2), (0, 1, 2));
    assert!(id0 < id1 && id1 < id2);
}

#[test]
fn removal_returns_record_and_keeps_escrow_locked() {
    // Removing a bid-upon auction does not release the leading bid's
    // escrow: the funds stay held, a known gap preserved deliberately.
    let mut m = env();
    let info = AuctionCoreInfo { timestamp: 1, cargo: (1, 1) };
    let (id, _) = m.new_auction(CREATOR, TERMINAL, info, 1, Some(30));
    assert!(m.bid::<AcceptAll>(BIDDER_C, id, 50, 5).is_ok());
    assert_eq!(m.remove_auction(id, TERMINAL), Err(Error::PermissionError));
    let removed = m.remove_auction(id, CREATOR).unwrap().unwrap();
    assert_eq!(removed.bid, Some((BIDDER_C, 50)));
    assert!(!m.auction_exists(id));
    assert_eq!(m.remove_auction(id, CREATOR), Err(Error::AuctionNotExist));
    assert_eq!(m.balances.reserved_balance(BIDDER_C), 50);
}

#[test]
fn queued_bid_replacement_keeps_first_escrow() {
    // Two pre-start bids for the same start slot: the second silently
    // replaces the first, whose escrow is not returned by this layer.
    let mut m = env();
    let info = AuctionCoreInfo { timestamp: 1, cargo: (1, 1) };
    let (id_a, _) = m.new_auction(CREATOR, TERMINAL, info, 10, Some(30));
    assert!(m.bid::<AcceptAll>(BIDDER_C, id_a, 50, 2).is_ok());
    assert!(m.bid::<AcceptAll>(BIDDER_D, id_a, 70, 3).is_ok());
    assert_eq!(m.balances.reserved_balance(BIDDER_C), 50);
    assert_eq!(m.balances.reserved_balance(BIDDER_D), 70);
    let mut now = 3u64;
    step(&mut m, &mut now, 11);
    // Only the replacement was placed.
    assert_eq!(m.auction_info(id_a).unwrap().bid, Some((BIDDER_D, 70)));
    assert_eq!(m.balances.reserved_balance(BIDDER_C), 50);
}

#[test]
fn bid_without_funds_fails() {
    let mut m = env();
    let info = AuctionCoreInfo { timestamp: 1, cargo: (1, 1) };
    let (id, _) = m.new_auction(CREATOR, TERMINAL, info, 10, Some(30));
    // Queued path: escrow is taken at submission, so it can fail there.
    assert_eq!(m.bid::<AcceptAll>(BIDDER_C, id, 20001, 2), Err(Error::EscrowReserveFailed));
    // Live path fails the same way.
    assert_eq!(m.bid::<AcceptAll>(BIDDER_C, id, 20001, 12), Err(Error::EscrowReserveFailed));
    assert_eq!(m.bid::<AcceptAll>(BIDDER_C, 99, 10, 2), Err(Error::AuctionNotExist));
}
