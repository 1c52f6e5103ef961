//! The query surface, the display clamping rules, and the escrow adapter's
//! own operations.

use auction_engine::engine::Module;
use auction_engine::queries::AuctionInformation;
use auction_engine::types::{AccountId, AuctionCoreInfo, AuctionHandler, AuctionId, Balance,
    BlockNumber, Error, OnNewBidResult};

struct AcceptAll;

impl AuctionHandler for AcceptAll {
    fn on_new_bid(
        _now: BlockNumber,
        _id: AuctionId,
        _new_bid: (AccountId, Balance),
        _last_bid: Option<(AccountId, Balance)>,
    ) -> OnNewBidResult {
        OnNewBidResult { accept_bid: true, auction_end: None }
    }

    fn on_auction_ended(
        _id: AuctionId,
        _recipients: (AccountId, AccountId),
        _winner: Option<(AccountId, Balance)>,
    ) {
    }
}

fn env_with_auction(start: u64, end: u64) -> (Module, u64) {
    let mut m = Module::new();
    m.balances.endow(1, 1000);
    m.balances.endow(2, 1000);
    m.balances.endow(3, u128::MAX - 1000);
    let info = AuctionCoreInfo { timestamp: 5, cargo: (6, 7) };
    let (id, _) = m.new_auction(1, 2, info, start, Some(end));
    (m, id)
}

#[test]
fn conversions_are_exact() {
    assert_eq!(Module::balance_to_u64(5000), Some(5000));
    assert_eq!(Module::balance_to_u64(u64::MAX as u128), Some(u64::MAX));
    assert_eq!(Module::balance_to_u64(u64::MAX as u128 + 1), None);
    assert_eq!(Module::u64_to_balance_option(77), Some(77u128));
    assert_eq!(Module::u64_to_balance_option(u64::MAX), Some(u64::MAX as u128));
}

#[test]
fn display_amount_is_clamped_at_the_top() {
    // A bid wider than the display width is cached as the maximum
    // representable display value rather than erroring.
    let (mut m, id) = env_with_auction(1, 50);
    let huge = u64::MAX as u128 + 5;
    assert!(m.bid::<AcceptAll>(3, id, huge, 10).is_ok());
    let record = m.auction_info(id).unwrap();
    assert_eq!(record.bid, Some((3, huge)));
    assert_eq!(record.parsed_bid, Some(u64::MAX));
    let shown = m.auction_query_formal(id, 10).unwrap();
    assert_eq!(shown.auction_highest_bid, Some((3, u64::MAX)));
}

#[test]
fn display_projection_reports_liveness_and_cache() {
    let (mut m, id) = env_with_auction(10, 50);
    assert!(m.bid::<AcceptAll>(2, id, 300, 15).is_ok());
    let shown = m.auction_query_formal(id, 15).unwrap();
    assert_eq!(shown.slot_owner, 1);
    assert_eq!(shown.slot_origin, 2);
    assert_eq!(shown.slot_time, 5);
    assert_eq!(shown.slot_num_cargo, 6);
    assert_eq!(shown.slot_num_teu, 7);
    assert!(shown.auction_is_live);
    assert_eq!(shown.auction_highest_bid, Some((2, 300)));
    assert_eq!(shown.auction_end_time, Some(50));
    // Before the start the projection is not live.
    let early = m.auction_query_formal(id, 3).unwrap();
    assert!(!early.auction_is_live);
    assert!(m.auction_query_formal(99, 15).is_none());
}

#[test]
fn list_queries_distinguish_empty_from_present() {
    let m = Module::new();
    assert!(m.auction_query_informal_all().is_none());
    assert!(m.auction_query_formal_all(0).is_none());
    assert!(m.auction_query_informal_all_status(true, 0).is_none());

    let (m2, id) = env_with_auction(10, 50);
    let all = m2.auction_query_informal_all().unwrap();
    assert_eq!(all.len(), 1);
    assert_eq!(all[0].creator, 1);
    // At time 3 the auction has not started: it is not active.
    assert!(m2.auction_query_informal_all_status(true, 3).is_none());
    let queued = m2.auction_query_informal_all_status(false, 3).unwrap();
    assert_eq!(queued.len(), 1);
    // From the start on it is active; the boundary step counts as live.
    let live = m2.auction_query_formal_all_status(true, 10).unwrap();
    assert_eq!(live.len(), 1);
    assert!(live[0].auction_is_live);
    assert!(m2.auction_query_formal(id, 10).is_some());
}

#[test]
fn auction_information_answers_from_a_snapshot() {
    let (m, id) = env_with_auction(10, 50);
    let handle = AuctionInformation::new(m);
    assert!(handle.auction_exists(id));
    assert!(!handle.auction_exists(id + 1));
    let record = handle.auction_query_informal(id).unwrap();
    assert_eq!(record.creator, 1);
    assert_eq!(record.end, Some(50));
    assert!(handle.auction_query_informal(id + 1).is_none());
}

#[test]
fn transfer_funds_aborts_on_overdraft() {
    let mut m = Module::new();
    m.balances.endow(1, 500);
    m.balances.endow(2, 100);
    assert!(m.balances.reserve(1, 200).is_ok());
    // More than is held: the payout is rejected outright.
    assert_eq!(m.transfer_funds(1, 2, 300), Err(Error::EscrowOverdraft));
    assert_eq!(m.balances.reserved_balance(1), 200);
    assert_eq!(m.balances.free_balance(2), 100);
    // Within the held amount: the payout completes.
    assert!(m.transfer_funds(1, 2, 200).is_ok());
    assert_eq!(m.balances.reserved_balance(1), 0);
    assert_eq!(m.balances.free_balance(1), 300);
    assert_eq!(m.balances.free_balance(2), 300);
}

#[test]
fn unreserve_shortfall_is_minted() {
    // Releasing more than is held mints the difference rather than blocking
    // the refund path.
    let mut m = Module::new();
    m.balances.endow(1, 500);
    assert!(m.balances.reserve(1, 100).is_ok());
    assert!(m.unreserve_funds(1, 150).is_ok());
    assert_eq!(m.balances.reserved_balance(1), 0);
    assert_eq!(m.balances.free_balance(1), 550);
}

#[test]
fn minting_fails_for_an_absent_account() {
    let mut m = Module::new();
    assert_eq!(m.unreserve_funds(9, 10), Err(Error::MintingFailed));
}
