//! The engine under its standard mock environment: eight endowed accounts
//! and four seeded auctions, all starting at time 1 and ending at 49, 51,
//! 150 and 250.

use auction_engine::engine::Module;
use auction_engine::types::{AccountId, AuctionCoreInfo, AuctionHandler, Balance, BlockNumber,
    AuctionId, Event, OnNewBidResult};

struct AcceptAll;

impl AuctionHandler for AcceptAll {
    fn on_new_bid(
        _now: BlockNumber,
        _id: AuctionId,
        _new_bid: (AccountId, Balance),
        _last_bid: Option<(AccountId, Balance)>,
    ) -> OnNewBidResult {
        OnNewBidResult { accept_bid: true, auction_end: None }
    }

    fn on_auction_ended(
        _id: AuctionId,
        _recipients: (AccountId, AccountId),
        _winner: Option<(AccountId, Balance)>,
    ) {
    }
}

fn new_test_ext() -> Module {
    let mut m = Module::new();
    for terminal in 1u64..=4 {
        m.balances.endow(terminal, 20000);
    }
    for barge in 5u64..=8 {
        m.balances.endow(barge, 40000);
    }
    let info = AuctionCoreInfo { timestamp: 0, cargo: (0, 0) };
    let seeds = vec![
        (5u64, 1u64, info, 1u64, 49u64),
        (6, 2, info, 1, 51),
        (7, 3, info, 1, 150),
        (8, 4, info, 1, 250),
    ];
    m.apply_genesis(&seeds);
    m
}

fn run_to_block(m: &mut Module, now: &mut u64, n: u64) {
    while *now < n {
        m.on_finalize::<AcceptAll>(*now);
        *now += 1;
        m.on_initialize::<AcceptAll>(*now);
    }
}

#[test]
fn new_test_ext_behaves() {
    let m = new_test_ext();
    assert_eq!(m.balances.free_balance(1), 20000);
}

#[test]
fn new_test_ext_transfer() {
    let mut m = new_test_ext();
    assert!(m.balances.transfer(1, 2, 1000).is_ok());
    assert_eq!(m.balances.free_balance(2), 21000);
    assert!(m.balances.transfer(2, 1, 1000).is_ok());
    assert_eq!(m.balances.free_balance(1), 20000);
}

#[test]
fn new_test_ext_can_reserve() {
    let m = new_test_ext();
    assert_eq!(m.balances.can_reserve(1, 29), true);
    assert_eq!(m.balances.can_reserve(1, 20001), false);
}

#[test]
fn new_test_ext_reserve() {
    let mut m = new_test_ext();
    assert!(m.balances.reserve(1, 10000).is_ok());
    assert_eq!(m.balances.free_balance(1), 10000);
    assert!(m.balances.reserve(1, 31000).is_err());
}

#[test]
fn new_test_ext_unreserver() {
    let mut m = new_test_ext();
    assert!(m.balances.reserve(1, 10000).is_ok());
    assert_eq!(m.balances.free_balance(1), 10000);
    assert_eq!(m.balances.unreserve(1, 10000), 0);
    assert!(m.balances.reserve(1, 20000).is_ok());
}

#[test]
fn new_test_ext_new_auction() {
    let m = new_test_ext();
    assert_eq!(m.auction_exists(0), true);
    assert_eq!(m.auction_exists(1), true);
    assert_eq!(m.auction_exists(2), true);
    assert_eq!(m.auction_exists(3), true);
}

#[test]
fn new_test_ext_auction_expire() {
    let mut m = new_test_ext();
    let mut now = 0u64;
    assert_eq!(m.auction_exists(0), true);
    assert_eq!(m.auction_exists(1), true);
    // Auction 0 ends at 49 and auction 1 at 51; by 55 both are settled.
    run_to_block(&mut m, &mut now, 55);
    assert_eq!(m.auction_exists(0), false);
    assert_eq!(m.auction_exists(1), false);
    assert!(m.events.iter().any(|e| *e == Event::AuctionEndUndecided(0)));
    assert!(m.events.iter().any(|e| *e == Event::AuctionEndUndecided(1)));
}

#[test]
fn new_test_ext_auction_bidding() {
    let mut m = new_test_ext();
    assert_eq!(m.auction_exists(0), true);
    // At time 0 the auctions have not started: the bid is queued.
    assert!(m.bid::<AcceptAll>(5, 0, 5000, 0).is_ok());
}
