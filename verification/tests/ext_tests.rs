//! The event-emitting dispatch wrappers, and acceptance policies that move
//! or clear the scheduled end (the auction-extension hook).

use auction_engine::engine::Module;
use auction_engine::types::{AccountId, AuctionCoreInfo, AuctionHandler, AuctionId, Balance,
    BlockNumber, Event, OnNewBidResult};

struct AcceptAll;

impl AuctionHandler for AcceptAll {
    fn on_new_bid(
        _now: BlockNumber,
        _id: AuctionId,
        _new_bid: (AccountId, Balance),
        _last_bid: Option<(AccountId, Balance)>,
    ) -> OnNewBidResult {
        OnNewBidResult { accept_bid: true, auction_end: None }
    }

    fn on_auction_ended(
        _id: AuctionId,
        _recipients: (AccountId, AccountId),
        _winner: Option<(AccountId, Balance)>,
    ) {
    }
}

/// Accepts every bid and pushes the end ten steps past the bid's time.
struct ExtendTen;

impl AuctionHandler for ExtendTen {
    fn on_new_bid(
        now: BlockNumber,
        _id: AuctionId,
        _new_bid: (AccountId, Balance),
        _last_bid: Option<(AccountId, Balance)>,
    ) -> OnNewBidResult {
        OnNewBidResult { accept_bid: true, auction_end: Some(Some(now + 10)) }
    }

    fn on_auction_ended(
        _id: AuctionId,
        _recipients: (AccountId, AccountId),
        _winner: Option<(AccountId, Balance)>,
    ) {
    }
}

/// Accepts every bid and clears the scheduled end entirely.
struct ClearEnd;

impl AuctionHandler for ClearEnd {
    fn on_new_bid(
        _now: BlockNumber,
        _id: AuctionId,
        _new_bid: (AccountId, Balance),
        _last_bid: Option<(AccountId, Balance)>,
    ) -> OnNewBidResult {
        OnNewBidResult { accept_bid: true, auction_end: Some(None) }
    }

    fn on_auction_ended(
        _id: AuctionId,
        _recipients: (AccountId, AccountId),
        _winner: Option<(AccountId, Balance)>,
    ) {
    }
}

fn env() -> Module {
    let mut m = Module::new();
    m.balances.endow(1, 10000);
    m.balances.endow(2, 10000);
    m.balances.endow(3, 10000);
    m
}

fn run<H: AuctionHandler>(m: &mut Module, now: &mut u64, n: u64) {
    while *now < n {
        m.on_finalize::<H>(*now);
        *now += 1;
        m.on_initialize::<H>(*now);
    }
}

#[test]
fn ext_create_emits_and_persists() {
    let mut m = env();
    assert!(m.ext_new_auction(1, 2, 30, 40, 777, 5, 25).is_ok());
    assert!(m.auction_exists(0));
    let record = m.auction_info(0).unwrap();
    assert_eq!(record.creator, 1);
    assert_eq!(record.slot_origin, 2);
    assert_eq!(record.core.timestamp, 777);
    assert_eq!(record.core.cargo, (30, 40));
    assert_eq!(record.start, 5);
    assert_eq!(record.end, Some(25));
    assert!(m.events.iter().any(|e| *e == Event::AuctionCreated(0, 1, 2, 5, 25, 777, 30, 40)));
}

#[test]
fn ext_update_emits_both_snapshots() {
    let mut m = env();
    assert!(m.ext_new_auction(1, 2, 30, 40, 777, 5, 25).is_ok());
    assert!(m.ext_update_auction(1, 0, Some(888), None, None, None, Some(35), 2).is_ok());
    assert_eq!(m.auction_info(0).unwrap().end, Some(35));
    assert_eq!(m.auction_info(0).unwrap().core.timestamp, 888);
    assert!(m.events.iter().any(
        |e| *e == Event::AuctionUpdated(0, 777, 30, 40, 5, 25, 888, 30, 40, 5, 35)
    ));
    // A failed update is swallowed and leaves no event behind.
    let events_before = m.events.len();
    assert!(m.ext_update_auction(2, 0, Some(9), None, None, None, None, 2).is_ok());
    assert_eq!(m.events.len(), events_before);
    assert_eq!(m.auction_info(0).unwrap().core.timestamp, 888);
}

#[test]
fn ext_remove_emits_once() {
    let mut m = env();
    assert!(m.ext_new_auction(1, 2, 30, 40, 777, 5, 25).is_ok());
    assert!(m.ext_remove_auction(3, 0).is_ok());
    assert!(m.auction_exists(0));
    assert!(!m.events.iter().any(|e| *e == Event::AuctionDeleted(0)));
    assert!(m.ext_remove_auction(1, 0).is_ok());
    assert!(!m.auction_exists(0));
    assert!(m.events.iter().any(|e| *e == Event::AuctionDeleted(0)));
}

#[test]
fn policy_extension_moves_settlement() {
    // A bid near the end pushes the end time out: the auction survives its
    // original end and settles at the extended one.
    let mut m = env();
    let info = AuctionCoreInfo { timestamp: 1, cargo: (1, 1) };
    let (id, _) = m.new_auction(1, 2, info, 0, Some(20));
    let mut now = 0u64;
    run::<ExtendTen>(&mut m, &mut now, 18);
    assert!(m.bid::<ExtendTen>(3, id, 100, now).is_ok());
    assert_eq!(m.auction_info(id).unwrap().end, Some(28));
    run::<ExtendTen>(&mut m, &mut now, 25);
    assert!(m.auction_exists(id));
    run::<ExtendTen>(&mut m, &mut now, 29);
    assert!(!m.auction_exists(id));
    assert!(m.events.iter().any(|e| *e == Event::AuctionEndDecided(3, id)));
}

#[test]
fn policy_can_clear_the_end_time() {
    // A policy may unschedule the end; the auction then never settles.
    let mut m = env();
    let info = AuctionCoreInfo { timestamp: 1, cargo: (1, 1) };
    let (id, _) = m.new_auction(1, 2, info, 0, Some(20));
    let mut now = 0u64;
    run::<ClearEnd>(&mut m, &mut now, 5);
    assert!(m.bid::<ClearEnd>(3, id, 100, now).is_ok());
    assert_eq!(m.auction_info(id).unwrap().end, None);
    run::<ClearEnd>(&mut m, &mut now, 60);
    assert!(m.auction_exists(id));
}
