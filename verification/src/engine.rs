//! The auction ledger and its lifecycle operations.
//!
//! `Module` owns the durable state: the auction arena, the end-time index,
//! the queued-bid slot, the funds ledger and the event log.  Time never
//! advances inside the engine; every operation that depends on it takes the
//! current step `now` from the external driver.

use vstd::prelude::*;

use crate::balances::{AccountData, Balances};
use crate::kv::{distinct_keys, kv_find, kv_map, lemma_filter_all, lemma_filter_distinct,
    lemma_filter_index, lemma_filter_none, lemma_filter_push, lemma_filter_sorted,
    lemma_kv_contains, lemma_kv_get, lemma_kv_push, lemma_kv_remove, lemma_kv_update};
use crate::types::{AccountId, AuctionCoreInfo, AuctionId, AuctionInfo, AuctionUpdateComplete,
    AuctionUpdateInfo, Balance, BlockNumber, Error, Event, GeneralInfo};

verus! {

/// The auction engine's durable state.
#[derive(PartialEq, Eq, Debug)]
pub struct Module {
    /// The auction arena, ordered by strictly increasing id.
    pub auctions: Vec<(AuctionId, AuctionInfo)>,
    /// The next id to assign; ids are never reused.
    pub next_id: AuctionId,
    /// End-time index: auction id to its scheduled end, exactly for the
    /// records whose `end` is set.
    pub end_times: Vec<(AuctionId, BlockNumber)>,
    /// At most one queued bid per start time.
    pub queued_bids: Vec<(BlockNumber, crate::types::QueuedBid)>,
    /// The funds ledger bids are escrowed against.
    pub balances: Balances,
    /// Signals emitted so far, in order.
    pub events: Vec<Event>,
}

impl Module {
    /// The arena as a finite map from id to record.
    pub open spec fn am(self) -> Map<AuctionId, AuctionInfo> {
        kv_map(self.auctions@)
    }

    /// The end-time index as a finite map from id to end time.
    pub open spec fn em(self) -> Map<AuctionId, BlockNumber> {
        kv_map(self.end_times@)
    }

    /// The queued bids as a finite map from start time to bid.
    pub open spec fn qm(self) -> Map<BlockNumber, crate::types::QueuedBid> {
        kv_map(self.queued_bids@)
    }

    /// Whether an auction with this id is stored.
    pub open spec fn spec_exists(self, id: AuctionId) -> bool {
        self.am().contains_key(id)
    }

    /// Arena entries are sorted by strictly increasing id.
    pub open spec fn ids_sorted(self) -> bool {
        forall|i: int, j: int| 0 <= i < j < self.auctions@.len()
            ==> (#[trigger] self.auctions@[i]).0 < (#[trigger] self.auctions@[j]).0
    }

    /// Every stored id is below the counter, so the next id is fresh.
    pub open spec fn ids_bounded(self) -> bool {
        forall|i: int| 0 <= i < self.auctions@.len()
            ==> (#[trigger] self.auctions@[i]).0 < self.next_id
    }

    /// An index entry exists for exactly the records whose `end` is set, and
    /// carries that end time.
    pub open spec fn index_consistent(self) -> bool {
        &&& forall|id: AuctionId| #[trigger] self.em().contains_key(id)
            ==> self.am().contains_key(id)
                && self.am()[id].end == Some(self.em()[id])
        &&& forall|id: AuctionId| #[trigger] self.am().contains_key(id)
                && self.am()[id].end is Some
            ==> self.em().contains_key(id) && Some(self.em()[id]) == self.am()[id].end
    }

    /// A record carries a display cache whenever it carries a leading bid.
    pub open spec fn cache_consistent(self) -> bool {
        forall|id: AuctionId| #[trigger] self.am().contains_key(id)
            && self.am()[id].bid is Some ==> self.am()[id].parsed_bid is Some
    }

    /// Well-formedness of the whole engine state.
    pub open spec fn wf(self) -> bool {
        &&& self.ids_sorted()
        &&& distinct_keys(self.auctions@)
        &&& self.ids_bounded()
        &&& distinct_keys(self.end_times@)
        &&& distinct_keys(self.queued_bids@)
        &&& self.index_consistent()
        &&& self.cache_consistent()
        &&& self.balances.wf()
    }

    /// An empty engine.
    pub fn new() -> (r: Module)
        ensures
            r.wf(),
            r.auctions@.len() == 0,
            r.next_id == 0,
            r.end_times@.len() == 0,
            r.queued_bids@.len() == 0,
            r.balances.accounts@.len() == 0,
            r.events@.len() == 0,
    {
        Module {
            auctions: Vec::new(),
            next_id: 0,
            end_times: Vec::new(),
            queued_bids: Vec::new(),
            balances: Balances::new(),
            events: Vec::new(),
        }
    }

    /// Whether the auction `id` is stored.
    pub fn auction_exists(&self, id: AuctionId) -> (r: bool)
        ensures
            r == self.spec_exists(id),
    {
        let r = kv_find(&self.auctions, id);
        proof {
            lemma_kv_contains(self.auctions@, id);
        }
        r.is_some()
    }

    /// The record stored under `id`, if any.
    pub fn auction_info(&self, id: AuctionId) -> (r: Option<AuctionInfo>)
        requires
            self.wf(),
        ensures
            r == if self.spec_exists(id) {
                Some(self.am()[id])
            } else {
                None::<AuctionInfo>
            },
    {
        match kv_find(&self.auctions, id) {
            Some(i) => {
                proof {
                    lemma_kv_get(self.auctions@, i as int);
                }
                Some(self.auctions[i].1)
            },
            None => {
                proof {
                    lemma_kv_contains(self.auctions@, id);
                }
                None
            },
        }
    }

    /// Create a new auction: assign the next id, persist the record, and
    /// index its end time if one is given.  Validation (distinct parties,
    /// end after start) is owed by the caller, as is headroom on the id
    /// counter.
    pub fn new_auction(
        &mut self,
        barge: AccountId,
        terminal: AccountId,
        core_info: AuctionCoreInfo,
        start: BlockNumber,
        end: Option<BlockNumber>,
    ) -> (r: (AuctionId, AuctionInfo))
        requires
            old(self).wf(),
            old(self).next_id < u64::MAX,
            barge != terminal,
            end is Some ==> end.unwrap() > start,
        ensures
            final(self).wf(),
            r.0 == old(self).next_id,
            r.1 == (AuctionInfo {
                creator: barge,
                slot_origin: terminal,
                bid: None,
                parsed_bid: None,
                core: core_info,
                start,
                end,
            }),
            !old(self).spec_exists(r.0),
            final(self).next_id == old(self).next_id + 1,
            final(self).auctions@ == old(self).auctions@.push((r.0, r.1)),
            final(self).am() == old(self).am().insert(r.0, r.1),
            final(self).end_times@ == match end {
                Some(e) => old(self).end_times@.push((r.0, e)),
                None => old(self).end_times@,
            },
            final(self).queued_bids@ == old(self).queued_bids@,
            final(self).balances == old(self).balances,
            final(self).events@ == old(self).events@,
    {
        let auction = AuctionInfo {
            creator: barge,
            slot_origin: terminal,
            bid: None,
            parsed_bid: None,
            core: core_info,
            start,
            end,
        };
        let auction_id = self.next_id;
        proof {
            lemma_kv_contains(self.auctions@, auction_id);
            assert(!self.am().contains_key(auction_id));
            assert(!self.em().contains_key(auction_id));
            lemma_kv_push(self.auctions@, auction_id, auction);
            lemma_kv_contains(self.end_times@, auction_id);
        }
        self.next_id = self.next_id + 1;
        self.auctions.push((auction_id, auction));
        if let Some(end_block) = end {
            proof {
                lemma_kv_push(self.end_times@, auction_id, end_block);
            }
            self.end_times.push((auction_id, end_block));
        }
        proof {
            let pre = *old(self);
            assert(self.am() == pre.am().insert(auction_id, auction));
            assert forall|a: int, b: int| 0 <= a < b < self.auctions@.len() implies
                (#[trigger] self.auctions@[a]).0 < (#[trigger] self.auctions@[b]).0 by {
                assert(self.auctions@[a] == pre.auctions@[a]);
                if b < self.auctions@.len() - 1 {
                    assert(self.auctions@[b] == pre.auctions@[b]);
                }
            }
            assert forall|a: int| 0 <= a < self.auctions@.len() implies
                (#[trigger] self.auctions@[a]).0 < self.next_id by {
                if a < self.auctions@.len() - 1 {
                    assert(self.auctions@[a] == pre.auctions@[a]);
                }
            }
            assert(self.em() == match end {
                Some(e) => pre.em().insert(auction_id, e),
                None => pre.em(),
            });
            assert forall|id2: AuctionId| #[trigger] self.em().contains_key(id2) implies
                self.am().contains_key(id2) && self.am()[id2].end == Some(self.em()[id2]) by {
                if id2 != auction_id {
                    assert(pre.em().contains_key(id2));
                }
            }
            assert forall|id2: AuctionId| #[trigger] self.am().contains_key(id2)
                && self.am()[id2].end is Some implies
                self.em().contains_key(id2) && Some(self.em()[id2]) == self.am()[id2].end by {
                if id2 != auction_id {
                    assert(pre.am().contains_key(id2));
                }
            }
            assert forall|id2: AuctionId| #[trigger] self.am().contains_key(id2)
                && self.am()[id2].bid is Some implies self.am()[id2].parsed_bid is Some by {
                if id2 != auction_id {
                    assert(pre.am().contains_key(id2));
                }
            }
        }
        (auction_id, auction)
    }

    /// The record that an update request turns `a` into: each given field
    /// replaces its counterpart; bids and display cache are never touched.
    pub open spec fn apply_patches(
        a: AuctionInfo,
        core_info: AuctionUpdateInfo,
        start: Option<BlockNumber>,
        end: Option<BlockNumber>,
    ) -> AuctionInfo {
        AuctionInfo {
            creator: a.creator,
            slot_origin: a.slot_origin,
            bid: a.bid,
            parsed_bid: a.parsed_bid,
            core: AuctionCoreInfo {
                timestamp: match core_info.timestamp {
                    Some(t) => t,
                    None => a.core.timestamp,
                },
                cargo: (
                    match core_info.num_con {
                        Some(c) => c,
                        None => a.core.cargo.0,
                    },
                    match core_info.num_teu {
                        Some(t) => t,
                        None => a.core.cargo.1,
                    },
                ),
            },
            start: match start {
                Some(s) => s,
                None => a.start,
            },
            end: match end {
                Some(e) => Some(e),
                None => a.end,
            },
        }
    }

    /// Whether a record keeps its end strictly after its start, the
    /// invariant owed at creation and at any schedule update.
    pub open spec fn schedule_ok(a: AuctionInfo) -> bool {
        a.end is Some ==> a.end.unwrap() > a.start
    }

    /// Update an unbid auction on behalf of its creator.  Fails without any
    /// change when the auction is missing, the caller is not the creator,
    /// a bid has frozen the auction, a start change comes once either the
    /// current or the proposed start is no longer in the future, or a
    /// schedule change would not leave the end strictly after the start.
    /// On success the given fields replace the record's, the end-time index
    /// follows, and both snapshots are returned.
    pub fn update_auction(
        &mut self,
        id: AuctionId,
        origin: AccountId,
        core_info: AuctionUpdateInfo,
        start: Option<BlockNumber>,
        end: Option<BlockNumber>,
        now: BlockNumber,
    ) -> (r: Result<AuctionUpdateComplete, Error>)
        requires
            old(self).wf(),
        ensures
            final(self).wf(),
            !old(self).spec_exists(id) ==> r == Err::<AuctionUpdateComplete, Error>(
                Error::AuctionNotExist,
            ) && *final(self) == *old(self),
            old(self).spec_exists(id) && old(self).am()[id].creator != origin
                ==> r == Err::<AuctionUpdateComplete, Error>(Error::PermissionError)
                    && *final(self) == *old(self),
            old(self).spec_exists(id) && old(self).am()[id].creator == origin
                && old(self).am()[id].bid is Some
                ==> r == Err::<AuctionUpdateComplete, Error>(Error::CannotUpdateActiveAuction)
                    && *final(self) == *old(self),
            old(self).spec_exists(id) && old(self).am()[id].creator == origin
                && old(self).am()[id].bid is None
                && start is Some
                && !(old(self).am()[id].start > now && start.unwrap() > now)
                ==> r == Err::<AuctionUpdateComplete, Error>(Error::AuctionAlreadyLive)
                    && *final(self) == *old(self),
            old(self).spec_exists(id) && old(self).am()[id].creator == origin
                && old(self).am()[id].bid is None
                && (start is Some ==> old(self).am()[id].start > now && start.unwrap() > now)
                && (start is Some || end is Some)
                && !Self::schedule_ok(Self::apply_patches(old(self).am()[id], core_info, start, end))
                ==> r == Err::<AuctionUpdateComplete, Error>(Error::InvalidSchedule)
                    && *final(self) == *old(self),
            old(self).spec_exists(id) && old(self).am()[id].creator == origin
                && old(self).am()[id].bid is None
                && (start is Some ==> old(self).am()[id].start > now && start.unwrap() > now)
                && (start is Some || end is Some
                    ==> Self::schedule_ok(Self::apply_patches(old(self).am()[id], core_info, start, end)))
                ==> {
                &&& r == Ok::<AuctionUpdateComplete, Error>(AuctionUpdateComplete {
                    old: old(self).am()[id],
                    new: Self::apply_patches(old(self).am()[id], core_info, start, end),
                })
                &&& final(self).am() == old(self).am().insert(
                    id,
                    Self::apply_patches(old(self).am()[id], core_info, start, end),
                )
                &&& final(self).em() == match end {
                    Some(e) => old(self).em().insert(id, e),
                    None => old(self).em(),
                }
                &&& final(self).next_id == old(self).next_id
                &&& final(self).queued_bids@ == old(self).queued_bids@
                &&& final(self).balances == old(self).balances
                &&& final(self).events@ == old(self).events@
            },
    {
        let i = match kv_find(&self.auctions, id) {
            Some(i) => i,
            None => {
                proof {
                    lemma_kv_contains(self.auctions@, id);
                }
                return Err(Error::AuctionNotExist);
            },
        };
        proof {
            lemma_kv_get(self.auctions@, i as int);
        }
        let auction = self.auctions[i].1;
        if auction.creator != origin {
            return Err(Error::PermissionError);
        }
        if auction.bid.is_some() {
            return Err(Error::CannotUpdateActiveAuction);
        }
        if start.is_some() && !(auction.start > now && start.unwrap() > now) {
            return Err(Error::AuctionAlreadyLive);
        }
        let updated = AuctionInfo {
            creator: auction.creator,
            slot_origin: auction.slot_origin,
            bid: auction.bid,
            parsed_bid: auction.parsed_bid,
            core: AuctionCoreInfo {
                timestamp: match core_info.timestamp {
                    Some(t) => t,
                    None => auction.core.timestamp,
                },
                cargo: (
                    match core_info.num_con {
                        Some(c) => c,
                        None => auction.core.cargo.0,
                    },
                    match core_info.num_teu {
                        Some(t) => t,
                        None => auction.core.cargo.1,
                    },
                ),
            },
            start: match start {
                Some(s) => s,
                None => auction.start,
            },
            end: match end {
                Some(e) => Some(e),
                None => auction.end,
            },
        };
        // A schedule change must keep the end strictly after the start.
        if start.is_some() || end.is_some() {
            if let Some(new_end) = updated.end {
                if new_end <= updated.start {
                    return Err(Error::InvalidSchedule);
                }
            }
        }
        if let Some(new_end) = end {
            match kv_find(&self.end_times, id) {
                Some(k) => {
                    proof {
                        lemma_kv_get(self.end_times@, k as int);
                        lemma_kv_update(self.end_times@, k as int, new_end);
                    }
                    self.end_times[k].1 = new_end;
                },
                None => {
                    proof {
                        lemma_kv_contains(self.end_times@, id);
                        lemma_kv_push(self.end_times@, id, new_end);
                    }
                    self.end_times.push((id, new_end));
                },
            }
        }
        proof {
            lemma_kv_update(self.auctions@, i as int, updated);
        }
        self.auctions[i].1 = updated;
        proof {
            let pre = *old(self);
            assert(self.am() == pre.am().insert(id, updated));
            assert(self.em() == match end {
                Some(e) => pre.em().insert(id, e),
                None => pre.em(),
            });
            assert forall|a: int, b: int| 0 <= a < b < self.auctions@.len() implies
                (#[trigger] self.auctions@[a]).0 < (#[trigger] self.auctions@[b]).0 by {
                assert(self.auctions@[a].0 == pre.auctions@[a].0);
                assert(self.auctions@[b].0 == pre.auctions@[b].0);
            }
            assert forall|a: int| 0 <= a < self.auctions@.len() implies
                (#[trigger] self.auctions@[a]).0 < self.next_id by {
                assert(self.auctions@[a].0 == pre.auctions@[a].0);
            }
            assert forall|id2: AuctionId| #[trigger] self.em().contains_key(id2) implies
                self.am().contains_key(id2) && self.am()[id2].end == Some(self.em()[id2]) by {
                if id2 != id {
                    assert(pre.em().contains_key(id2));
                }
            }
            assert forall|id2: AuctionId| #[trigger] self.am().contains_key(id2)
                && self.am()[id2].end is Some implies
                self.em().contains_key(id2) && Some(self.em()[id2]) == self.am()[id2].end by {
                if id2 != id {
                    assert(pre.am().contains_key(id2));
                }
            }
            assert forall|id2: AuctionId| #[trigger] self.am().contains_key(id2)
                && self.am()[id2].bid is Some implies self.am()[id2].parsed_bid is Some by {
                if id2 != id {
                    assert(pre.am().contains_key(id2));
                }
            }
        }
        Ok(AuctionUpdateComplete { old: auction, new: updated })
    }

    /// Remove an auction on behalf of `origin`, returning the removed
    /// record.  Escrow held against its leading bid is left untouched.
    pub fn remove_auction(&mut self, id: AuctionId, origin: AccountId) -> (r: Result<
        Option<AuctionInfo>,
        Error,
    >)
        requires
            old(self).wf(),
        ensures
            final(self).wf(),
            !old(self).spec_exists(id) ==> r == Err::<Option<AuctionInfo>, Error>(
                Error::AuctionNotExist,
            ) && *final(self) == *old(self),
            old(self).spec_exists(id) && old(self).am()[id].creator != origin
                ==> r == Err::<Option<AuctionInfo>, Error>(Error::PermissionError)
                    && *final(self) == *old(self),
            old(self).spec_exists(id) && old(self).am()[id].creator == origin ==> {
                &&& r == Ok::<Option<AuctionInfo>, Error>(Some(old(self).am()[id]))
                &&& final(self).am() == old(self).am().remove(id)
                &&& !final(self).spec_exists(id)
                &&& final(self).em() == old(self).em().remove(id)
                &&& final(self).next_id == old(self).next_id
                &&& final(self).queued_bids@ == old(self).queued_bids@
                &&& final(self).balances == old(self).balances
                &&& final(self).events@ == old(self).events@
            },
    {
        match kv_find(&self.auctions, id) {
            Some(i) => {
                proof {
                    lemma_kv_get(self.auctions@, i as int);
                }
                let auction = self.auctions[i].1;
                if auction.creator != origin {
                    return Err(Error::PermissionError);
                }
                proof {
                    lemma_kv_remove(self.auctions@, i as int);
                }
                self.auctions.remove(i);
                match kv_find(&self.end_times, id) {
                    Some(k) => {
                        proof {
                            lemma_kv_get(self.end_times@, k as int);
                            lemma_kv_remove(self.end_times@, k as int);
                        }
                        self.end_times.remove(k);
                    },
                    None => {
                        proof {
                            lemma_kv_contains(self.end_times@, id);
                            assert(self.em() =~= self.em().remove(id));
                        }
                    },
                }
                proof {
                    let pre = *old(self);
                    assert forall|a: int, b: int|
                        0 <= a < b < self.auctions@.len() implies
                        (#[trigger] self.auctions@[a]).0 < (#[trigger] self.auctions@[b]).0 by {
                        let a2 = if a < i as int { a } else { a + 1 };
                        let b2 = if b < i as int { b } else { b + 1 };
                        assert(self.auctions@[a] == pre.auctions@[a2]);
                        assert(self.auctions@[b] == pre.auctions@[b2]);
                    }
                    assert forall|i2: int| 0 <= i2 < self.auctions@.len() implies
                        (#[trigger] self.auctions@[i2]).0 < self.next_id by {
                        let j2 = if i2 < i as int { i2 } else { i2 + 1 };
                        assert(self.auctions@[i2] == pre.auctions@[j2]);
                    }
                    assert(self.am() == pre.am().remove(id));
                    assert(self.em() == pre.em().remove(id));
                    assert forall|id2: AuctionId| #[trigger] self.em().contains_key(id2) implies
                        self.am().contains_key(id2)
                            && self.am()[id2].end == Some(self.em()[id2]) by {
                        assert(pre.em().contains_key(id2));
                    }
                    assert forall|id2: AuctionId| #[trigger] self.am().contains_key(id2)
                        && self.am()[id2].end is Some implies
                        self.em().contains_key(id2)
                            && Some(self.em()[id2]) == self.am()[id2].end by {
                        assert(pre.am().contains_key(id2));
                    }
                    assert forall|id2: AuctionId| #[trigger] self.am().contains_key(id2)
                        && self.am()[id2].bid is Some implies
                        self.am()[id2].parsed_bid is Some by {
                        assert(pre.am().contains_key(id2));
                    }
                }
                Ok(Some(auction))
            },
            None => {
                proof {
                    lemma_kv_contains(self.auctions@, id);
                }
                Err(Error::AuctionNotExist)
            },
        }
    }

    /// Everything but the funds ledger is the same in both states.
    pub open spec fn only_balances_change(self, post: Module) -> bool {
        &&& post.auctions@ == self.auctions@
        &&& post.next_id == self.next_id
        &&& post.end_times@ == self.end_times@
        &&& post.queued_bids@ == self.queued_bids@
        &&& post.events@ == self.events@
    }

    /// Well-formedness survives any step that leaves the auction tables
    /// untouched and keeps the ledger well-formed.
    pub proof fn lemma_wf_frame(pre: Module, post: Module)
        requires
            pre.wf(),
            post.auctions@ == pre.auctions@,
            post.next_id == pre.next_id,
            post.end_times@ == pre.end_times@,
            post.queued_bids@ == pre.queued_bids@,
            post.balances.wf(),
        ensures
            post.wf(),
    {
        assert(post.am() == pre.am());
        assert(post.em() == pre.em());
        assert(post.qm() == pre.qm());
        assert forall|id: AuctionId| #[trigger] post.em().contains_key(id) implies
            post.am().contains_key(id) && post.am()[id].end == Some(post.em()[id]) by {
            assert(pre.em().contains_key(id));
        }
        assert forall|id: AuctionId| #[trigger] post.am().contains_key(id)
            && post.am()[id].end is Some implies
            post.em().contains_key(id) && Some(post.em()[id]) == post.am()[id].end by {
            assert(pre.am().contains_key(id));
        }
        assert forall|id: AuctionId| #[trigger] post.am().contains_key(id)
            && post.am()[id].bid is Some implies post.am()[id].parsed_bid is Some by {
            assert(pre.am().contains_key(id));
        }
        assert forall|a: int, b: int| 0 <= a < b < post.auctions@.len() implies
            (#[trigger] post.auctions@[a]).0 < (#[trigger] post.auctions@[b]).0 by {
            assert(pre.auctions@[a] == post.auctions@[a]);
            assert(pre.auctions@[b] == post.auctions@[b]);
        }
        assert forall|a: int| 0 <= a < post.auctions@.len() implies
            (#[trigger] post.auctions@[a]).0 < post.next_id by {
            assert(pre.auctions@[a] == post.auctions@[a]);
        }
        assert(distinct_keys(post.auctions@));
        assert forall|a: int, b: int| 0 <= a < b < post.end_times@.len() implies
            (#[trigger] post.end_times@[a]).0 != (#[trigger] post.end_times@[b]).0 by {
            assert(pre.end_times@[a] == post.end_times@[a]);
            assert(pre.end_times@[b] == post.end_times@[b]);
        }
        assert forall|a: int, b: int| 0 <= a < b < post.queued_bids@.len() implies
            (#[trigger] post.queued_bids@[a]).0 != (#[trigger] post.queued_bids@[b]).0 by {
            assert(pre.queued_bids@[a] == post.queued_bids@[a]);
            assert(pre.queued_bids@[b] == post.queued_bids@[b]);
        }
    }

    /// Escrow `amount` for `target`: move it from the available to the held
    /// balance.  Fails, and changes nothing, exactly when the available
    /// balance does not cover the amount.
    pub fn reserve_funds(&mut self, target: AccountId, amount: Balance) -> (r: Result<(), Error>)
        requires
            old(self).wf(),
        ensures
            final(self).wf(),
            old(self).only_balances_change(*final(self)),
            amount > old(self).balances.spec_free(target)
                ==> r == Err::<(), Error>(Error::EscrowReserveFailed)
                    && *final(self) == *old(self),
            amount <= old(self).balances.spec_free(target) ==> {
                &&& r == Ok::<(), Error>(())
                &&& final(self).balances.acct(target) == Balances::reserve_ok_acct(
                    old(self).balances.acct(target),
                    amount,
                )
                &&& old(self).balances.others_same(final(self).balances, target)
            },
    {
        let r = self.balances.reserve(target, amount);
        proof {
            Self::lemma_wf_frame(*old(self), *self);
        }
        r
    }

    /// Release up to `amount` of `target`'s escrow back to its available
    /// balance.  A shortfall (held balance below `amount`) is compensated by
    /// minting the difference into the available balance; only when that
    /// minting itself fails is the shortfall surfaced, with the plain
    /// release already applied.
    pub fn unreserve_funds(&mut self, target: AccountId, amount: Balance) -> (r: Result<(), Error>)
        requires
            old(self).wf(),
        ensures
            final(self).wf(),
            old(self).only_balances_change(*final(self)),
            old(self).balances.others_same(final(self).balances, target),
            old(self).balances.refund_minting_fails(target, amount) ==> {
                &&& r == Err::<(), Error>(Error::MintingFailed)
                &&& final(self).balances.acct(target) == (AccountData {
                    free: (old(self).balances.spec_free(target)
                        + old(self).balances.spec_reserved(target)) as u128,
                    reserved: 0,
                })
            },
            !old(self).balances.refund_minting_fails(target, amount) ==> {
                &&& r == Ok::<(), Error>(())
                &&& final(self).balances.acct(target) == Balances::refund_ok_acct(
                    old(self).balances.acct(target),
                    amount,
                )
            },
    {
        let overdraft = self.balances.unreserve(target, amount);
        let ghost midb = self.balances;
        proof {
            old(self).balances.lemma_acct_total(target);
        }
        let r = if overdraft > 0 {
            match self.balances.deposit(target, overdraft) {
                Ok(()) => {
                    proof {
                        assert(midb.m().contains_key(target)
                            == old(self).balances.m().contains_key(target));
                        assert(!old(self).balances.refund_minting_fails(target, amount));
                    }
                    Ok(())
                },
                Err(_) => Err(Error::MintingFailed),
            }
        } else {
            Ok(())
        };
        proof {
            Self::lemma_wf_frame(*old(self), *self);
        }
        r
    }

    /// Pay out `amount` of `from`'s escrow to `to`'s available balance.
    /// Unlike `unreserve_funds`, a shortfall in the held balance aborts the
    /// whole transfer with no change: payouts never proceed from an
    /// under-collateralized state.  A receiver whose total would overflow the
    /// ledger's width also aborts the transfer unchanged.
    pub fn transfer_funds(&mut self, from: AccountId, to: AccountId, amount: Balance) -> (r:
        Result<(), Error>)
        requires
            old(self).wf(),
        ensures
            final(self).wf(),
            old(self).only_balances_change(*final(self)),
            amount > old(self).balances.spec_reserved(from)
                ==> r == Err::<(), Error>(Error::EscrowOverdraft) && *final(self) == *old(self),
            amount <= old(self).balances.spec_reserved(from) && from != to
                && old(self).balances.spec_free(to) + old(self).balances.spec_reserved(to)
                    + amount > u128::MAX
                ==> r == Err::<(), Error>(Error::TransferFailed) && *final(self) == *old(self),
            amount <= old(self).balances.spec_reserved(from) && from == to ==> {
                &&& r == Ok::<(), Error>(())
                &&& final(self).balances.acct(from) == (AccountData {
                    free: (old(self).balances.spec_free(from) + amount) as u128,
                    reserved: (old(self).balances.spec_reserved(from) - amount) as u128,
                })
                &&& old(self).balances.others_same(final(self).balances, from)
            },
            amount <= old(self).balances.spec_reserved(from) && from != to
                && old(self).balances.spec_free(to) + old(self).balances.spec_reserved(to)
                    + amount <= u128::MAX ==> {
                &&& r == Ok::<(), Error>(())
                &&& final(self).balances.acct(from) == (AccountData {
                    free: old(self).balances.spec_free(from),
                    reserved: (old(self).balances.spec_reserved(from) - amount) as u128,
                })
                &&& final(self).balances.acct(to) == (AccountData {
                    free: (old(self).balances.spec_free(to) + amount) as u128,
                    reserved: old(self).balances.spec_reserved(to),
                })
                &&& forall|a: AccountId| a != from && a != to
                    ==> #[trigger] final(self).balances.acct(a) == old(self).balances.acct(a)
            },
    {
        if amount > self.balances.reserved_balance(from) {
            return Err(Error::EscrowOverdraft);
        }
        if from != to {
            let to_free = self.balances.free_balance(to);
            let to_reserved = self.balances.reserved_balance(to);
            if to_free > u128::MAX - amount || to_reserved > u128::MAX - amount - to_free {
                return Err(Error::TransferFailed);
            }
        }
        let overdraft = self.balances.unreserve(from, amount);
        let ghost mid = *self;
        proof {
            old(self).balances.lemma_acct_total(from);
            assert(overdraft == 0);
            assert(mid.balances.acct(from) == (AccountData {
                free: (old(self).balances.spec_free(from) + amount) as u128,
                reserved: (old(self).balances.spec_reserved(from) - amount) as u128,
            }));
            if from != to {
                assert(mid.balances.acct(to) == old(self).balances.acct(to));
            }
            assert(mid.balances.can_transfer(from, to, amount));
        }
        let result = self.balances.transfer(from, to, amount);
        proof {
            if from != to {
                assert forall|a: AccountId| a != from && a != to implies
                    self.balances.acct(a) == old(self).balances.acct(a) by {
                    assert(mid.balances.acct(a) == old(self).balances.acct(a));
                    assert(self.balances.acct(a) == mid.balances.acct(a));
                }
            }
            Self::lemma_wf_frame(*old(self), *self);
        }
        match result {
            Ok(()) => Ok(()),
            Err(_) => Err(Error::TransferFailed),
        }
    }

    /// Whether `value` beats the auction's leading bid (any first bid must be
    /// nonzero; a replacement must be strictly larger).
    pub open spec fn price_ok(a: AuctionInfo, value: Balance) -> bool {
        match a.bid {
            Some(p) => value > p.1,
            None => value > 0,
        }
    }

    /// The record after a bid `(bidder, value)` is accepted, with the
    /// policy's end-time answer applied and the display cache refreshed.
    pub open spec fn bid_updated_record(
        a: AuctionInfo,
        bidder: AccountId,
        value: Balance,
        auction_end: Option<Option<BlockNumber>>,
    ) -> AuctionInfo {
        AuctionInfo {
            creator: a.creator,
            slot_origin: a.slot_origin,
            bid: Some((bidder, value)),
            parsed_bid: Some(Self::clamp64(value)),
            core: a.core,
            start: a.start,
            end: match auction_end {
                None => a.end,
                Some(ne) => ne,
            },
        }
    }

    /// The end-time index after the policy's end-time answer for `id`.
    pub open spec fn em_after_decision(
        em: Map<AuctionId, BlockNumber>,
        id: AuctionId,
        auction_end: Option<Option<BlockNumber>>,
    ) -> Map<AuctionId, BlockNumber> {
        match auction_end {
            None => em,
            Some(None) => em.remove(id),
            Some(Some(t)) => em.insert(id, t),
        }
    }

    /// How the ledger moves when a bid is accepted: the previous leading
    /// bid's escrow is returned in full to its bidder and the new amount is
    /// escrowed from the new bidder; no other account moves.
    pub open spec fn accept_balances(
        pre: Balances,
        post: Balances,
        prev: Option<(AccountId, Balance)>,
        bidder: AccountId,
        value: Balance,
    ) -> bool {
        match prev {
            None => {
                &&& post.acct(bidder) == Balances::reserve_ok_acct(pre.acct(bidder), value)
                &&& pre.others_same(post, bidder)
            },
            Some((b1, a1)) => if b1 == bidder {
                &&& post.acct(bidder) == Balances::reserve_ok_acct(
                    Balances::refund_ok_acct(pre.acct(bidder), a1),
                    value,
                )
                &&& pre.others_same(post, bidder)
            } else {
                &&& post.acct(b1) == Balances::refund_ok_acct(pre.acct(b1), a1)
                &&& post.acct(bidder) == Balances::reserve_ok_acct(pre.acct(bidder), value)
                &&& forall|x: AccountId| x != b1 && x != bidder
                    ==> #[trigger] post.acct(x) == pre.acct(x)
            },
        }
    }

    /// The new bidder's available balance once the previous bid (if any, and
    /// if held by the same account) has been refunded.
    pub open spec fn free_after_refund(
        pre: Balances,
        prev: Option<(AccountId, Balance)>,
        bidder: AccountId,
    ) -> int {
        pre.spec_free(bidder) + match prev {
            Some((b1, a1)) => if b1 == bidder {
                a1 as int
            } else {
                0
            },
            None => 0,
        }
    }

    /// Everything a successfully accepted bid changes, relative to the state
    /// in which the policy answered `auction_end`.
    pub open spec fn accepted_post(
        pre: Module,
        post: Module,
        id: AuctionId,
        bidder: AccountId,
        value: Balance,
        auction_end: Option<Option<BlockNumber>>,
    ) -> bool {
        &&& post.am() == pre.am().insert(
            id,
            Self::bid_updated_record(pre.am()[id], bidder, value, auction_end),
        )
        &&& post.em() == Self::em_after_decision(pre.em(), id, auction_end)
        &&& post.events@ == pre.events@.push(Event::Bid(id, bidder, value))
        &&& post.next_id == pre.next_id
        &&& post.queued_bids@ == pre.queued_bids@
        &&& Self::accept_balances(pre.balances, post.balances, pre.am()[id].bid, bidder, value)
    }

    /// Persist an accepted or auto-placed bid: move the end-time index as
    /// the policy asked, set the leading bid and its display cache, and
    /// announce `announce`.  Escrow is none of this function's business.
    fn commit_bid(
        &mut self,
        i: usize,
        id: AuctionId,
        bidder: AccountId,
        value: Balance,
        auction_end: Option<Option<BlockNumber>>,
        parsed: u64,
        announce: Event,
    )
        requires
            old(self).wf(),
            i < old(self).auctions@.len(),
            old(self).auctions@[i as int].0 == id,
            parsed == Self::clamp64(value),
        ensures
            final(self).wf(),
            final(self).am() == old(self).am().insert(
                id,
                Self::bid_updated_record(old(self).am()[id], bidder, value, auction_end),
            ),
            final(self).em() == Self::em_after_decision(old(self).em(), id, auction_end),
            final(self).events@ == old(self).events@.push(announce),
            final(self).next_id == old(self).next_id,
            final(self).queued_bids@ == old(self).queued_bids@,
            final(self).balances == old(self).balances,
    {
        proof {
            lemma_kv_get(self.auctions@, i as int);
        }
        let auction = self.auctions[i].1;
        let ghost mid2 = *self;
        // Apply the policy's end-time answer to the index.
        if let Some(new_end) = auction_end {
            match kv_find(&self.end_times, id) {
                Some(k) => {
                    proof {
                        lemma_kv_get(self.end_times@, k as int);
                        lemma_kv_remove(self.end_times@, k as int);
                    }
                    self.end_times.remove(k);
                },
                None => {
                    proof {
                        lemma_kv_contains(self.end_times@, id);
                        assert(self.em() =~= self.em().remove(id));
                    }
                },
            }
            if let Some(new_end_block) = new_end {
                proof {
                    lemma_kv_contains(self.end_times@, id);
                    lemma_kv_push(self.end_times@, id, new_end_block);
                }
                self.end_times.push((id, new_end_block));
            }
        }
        proof {
            assert(self.em() == Self::em_after_decision(mid2.em(), id, auction_end));
        }
        // Persist the updated record and announce the bid.
        let updated = AuctionInfo {
            creator: auction.creator,
            slot_origin: auction.slot_origin,
            bid: Some((bidder, value)),
            parsed_bid: Some(parsed),
            core: auction.core,
            start: auction.start,
            end: match auction_end {
                None => auction.end,
                Some(ne) => ne,
            },
        };
        proof {
            lemma_kv_update(self.auctions@, i as int, updated);
        }
        self.auctions[i].1 = updated;
        self.events.push(announce);
        proof {
            let pre = *old(self);
            assert(self.am() == pre.am().insert(id, updated));
            assert(updated == Self::bid_updated_record(pre.am()[id], bidder, value, auction_end));
            assert(self.em() == Self::em_after_decision(pre.em(), id, auction_end));
            assert forall|a: int, b: int| 0 <= a < b < self.auctions@.len() implies
                (#[trigger] self.auctions@[a]).0 < (#[trigger] self.auctions@[b]).0 by {
                assert(self.auctions@[a].0 == pre.auctions@[a].0);
                assert(self.auctions@[b].0 == pre.auctions@[b].0);
            }
            assert forall|a: int| 0 <= a < self.auctions@.len() implies
                (#[trigger] self.auctions@[a]).0 < self.next_id by {
                assert(self.auctions@[a].0 == pre.auctions@[a].0);
            }
            assert forall|id2: AuctionId| #[trigger] self.em().contains_key(id2) implies
                self.am().contains_key(id2) && self.am()[id2].end == Some(self.em()[id2]) by {
                if id2 != id {
                    assert(pre.em().contains_key(id2));
                }
            }
            assert forall|id2: AuctionId| #[trigger] self.am().contains_key(id2)
                && self.am()[id2].end is Some implies
                self.em().contains_key(id2) && Some(self.em()[id2]) == self.am()[id2].end by {
                if id2 != id {
                    assert(pre.am().contains_key(id2));
                }
            }
            assert forall|id2: AuctionId| #[trigger] self.am().contains_key(id2)
                && self.am()[id2].bid is Some implies self.am()[id2].parsed_bid is Some by {
                if id2 != id {
                    assert(pre.am().contains_key(id2));
                }
            }
        }
    }

    /// Run the accepted-bid tail of the pipeline: refund the previous
    /// leading bid, escrow the new one, apply the policy's end-time answer,
    /// refresh the display cache and persist the record.  The decision
    /// `auction_end` has already been made by the policy; for every value of
    /// it this function's outcome is pinned exactly.
    fn apply_accepted_bid(
        &mut self,
        id: AuctionId,
        bidder: AccountId,
        value: Balance,
        auction_end: Option<Option<BlockNumber>>,
    ) -> (r: Result<(), Error>)
        requires
            old(self).wf(),
            old(self).spec_exists(id),
            Self::price_ok(old(self).am()[id], value),
        ensures
            final(self).wf(),
            ({
                let prev = old(self).am()[id].bid;
                let refund_fails = match prev {
                    Some((b1, a1)) => old(self).balances.refund_minting_fails(b1, a1),
                    None => false,
                };
                let reserve_fails = !refund_fails && value > Self::free_after_refund(
                    old(self).balances,
                    prev,
                    bidder,
                );
                &&& refund_fails ==> {
                    &&& r == Err::<(), Error>(Error::MintingFailed)
                    &&& old(self).only_balances_change(*final(self))
                    &&& final(self).balances.acct(prev.unwrap().0) == (AccountData {
                        free: (old(self).balances.spec_free(prev.unwrap().0)
                            + old(self).balances.spec_reserved(prev.unwrap().0)) as u128,
                        reserved: 0,
                    })
                    &&& old(self).balances.others_same(final(self).balances, prev.unwrap().0)
                }
                &&& reserve_fails ==> {
                    &&& r == Err::<(), Error>(Error::EscrowReserveFailed)
                    &&& old(self).only_balances_change(*final(self))
                    &&& match prev {
                        None => *final(self) == *old(self),
                        Some((b1, a1)) => final(self).balances.acct(b1)
                            == Balances::refund_ok_acct(old(self).balances.acct(b1), a1)
                            && old(self).balances.others_same(final(self).balances, b1),
                    }
                }
                &&& !refund_fails && !reserve_fails ==> r == Ok::<(), Error>(())
                    && Self::accepted_post(*old(self), *final(self), id, bidder, value, auction_end)
            }),
    {
        let i = match kv_find(&self.auctions, id) {
            Some(i) => i,
            None => {
                proof {
                    lemma_kv_contains(self.auctions@, id);
                    assert(false);
                }
                return Err(Error::AuctionNotExist);
            },
        };
        proof {
            lemma_kv_get(self.auctions@, i as int);
        }
        let auction = self.auctions[i].1;
        // Refund the previous leading bid before taking the new escrow.
        if let Some((prev_bidder, prev_amount)) = auction.bid {
            match self.unreserve_funds(prev_bidder, prev_amount) {
                Ok(()) => {},
                Err(e) => {
                    return Err(e);
                },
            }
        }
        let ghost mid1 = *self;
        proof {
            old(self).balances.lemma_acct_total(bidder);
            match auction.bid {
                None => {},
                Some((b1, a1)) => {
                    old(self).balances.lemma_acct_total(b1);
                    if b1 == bidder {
                        assert(mid1.balances.acct(bidder) == Balances::refund_ok_acct(
                            old(self).balances.acct(bidder),
                            a1,
                        ));
                    } else {
                        assert(mid1.balances.acct(bidder) == old(self).balances.acct(bidder));
                    }
                },
            }
            assert(mid1.balances.spec_free(bidder) == Self::free_after_refund(
                old(self).balances,
                auction.bid,
                bidder,
            ));
            mid1.balances.lemma_acct_total(bidder);
        }
        // Escrow the new bid, recording the realized delta for display.
        let pre_reserved = self.balances.reserved_balance(bidder);
        match self.reserve_funds(bidder, value) {
            Ok(()) => {},
            Err(e) => {
                return Err(e);
            },
        }
        let post_reserved = self.balances.reserved_balance(bidder);
        proof {
            assert(self.balances.acct(bidder) == Balances::reserve_ok_acct(
                mid1.balances.acct(bidder),
                value,
            ));
        }
        let delta = post_reserved - pre_reserved;
        let parsed: u64 = if delta > u64::MAX as u128 {
            u64::MAX
        } else {
            delta as u64
        };
        proof {
            assert(delta == value);
            assert(parsed == Self::clamp64(value));
        }
        self.commit_bid(i, id, bidder, value, auction_end, parsed, Event::Bid(id, bidder, value));
        proof {
            let pre = *old(self);
            match pre.am()[id].bid {
                None => {},
                Some((b1, a1)) => {
                    if b1 == bidder {
                        assert(mid1.balances.acct(bidder)
                            == Balances::refund_ok_acct(pre.balances.acct(bidder), a1));
                        assert forall|x: AccountId| x != bidder implies
                            #[trigger] self.balances.acct(x) == pre.balances.acct(x) by {
                            assert(mid1.balances.acct(x) == pre.balances.acct(x));
                            assert(self.balances.acct(x) == mid1.balances.acct(x));
                        }
                    } else {
                        assert(self.balances.acct(b1) == mid1.balances.acct(b1));
                        assert(mid1.balances.acct(bidder) == pre.balances.acct(bidder));
                        assert forall|x: AccountId| x != b1 && x != bidder implies
                            #[trigger] self.balances.acct(x) == pre.balances.acct(x) by {
                            assert(mid1.balances.acct(x) == pre.balances.acct(x));
                            assert(self.balances.acct(x) == mid1.balances.acct(x));
                        }
                    }
                },
            }
        }
        Ok(())
    }

    /// Submit a bid by `bidder` of `value` on auction `id` at time `now`.
    ///
    /// Before the auction's start the bid is escrowed at once and queued at
    /// the start slot, silently replacing any earlier occupant of that slot
    /// (whose escrow this layer does not return).  From the start on, the
    /// bid must beat the leading bid, the acceptance policy is consulted,
    /// and on acceptance the previous bid is refunded, the new one escrowed,
    /// the end time moved as the policy asks, and the record persisted.  A
    /// rejection by the policy changes nothing at all.
    pub fn bid<H: crate::types::AuctionHandler>(
        &mut self,
        bidder: AccountId,
        id: AuctionId,
        value: Balance,
        now: BlockNumber,
    ) -> (r: Result<(), Error>)
        requires
            old(self).wf(),
        ensures
            final(self).wf(),
            final(self).next_id == old(self).next_id,
            r == Err::<(), Error>(Error::AuctionNotExist) <==> !old(self).spec_exists(id),
            !old(self).spec_exists(id) ==> *final(self) == *old(self),
            old(self).spec_exists(id) && now < old(self).am()[id].start ==> {
                let start = old(self).am()[id].start;
                &&& value <= old(self).balances.spec_free(bidder) ==> {
                    &&& r == Ok::<(), Error>(())
                    &&& final(self).balances.acct(bidder) == Balances::reserve_ok_acct(
                        old(self).balances.acct(bidder),
                        value,
                    )
                    &&& old(self).balances.others_same(final(self).balances, bidder)
                    &&& final(self).qm() == old(self).qm().insert(
                        start,
                        crate::types::QueuedBid { bid: (bidder, value), auction_id: id },
                    )
                    &&& final(self).auctions@ == old(self).auctions@
                    &&& final(self).end_times@ == old(self).end_times@
                    &&& final(self).events@ == old(self).events@.push(
                        Event::BidQueued(bidder, value, id),
                    )
                }
                &&& value > old(self).balances.spec_free(bidder) ==> r == Err::<(), Error>(
                    Error::EscrowReserveFailed,
                ) && *final(self) == *old(self)
            },
            old(self).spec_exists(id) && now >= old(self).am()[id].start
                && !Self::price_ok(old(self).am()[id], value)
                ==> r == Err::<(), Error>(Error::InvalidBidPrice) && *final(self) == *old(self),
            r == Err::<(), Error>(Error::InvalidBidPrice) ==> old(self).spec_exists(id)
                && now >= old(self).am()[id].start && !Self::price_ok(old(self).am()[id], value),
            r == Err::<(), Error>(Error::BidNotAccepted) ==> old(self).spec_exists(id)
                && now >= old(self).am()[id].start && Self::price_ok(old(self).am()[id], value)
                && *final(self) == *old(self),
            old(self).spec_exists(id) && now >= old(self).am()[id].start
                && Self::price_ok(old(self).am()[id], value) ==> {
                let prev = old(self).am()[id].bid;
                let refund_fails = match prev {
                    Some((b1, a1)) => old(self).balances.refund_minting_fails(b1, a1),
                    None => false,
                };
                &&& r is Ok ==> exists|ne: Option<Option<BlockNumber>>|
                    Self::accepted_post(*old(self), *final(self), id, bidder, value, ne)
                &&& r is Ok ==> final(self).spec_exists(id)
                    && final(self).am()[id].bid == Some((bidder, value))
                    && final(self).am()[id].parsed_bid == Some(Self::clamp64(value))
                &&& r == Err::<(), Error>(Error::MintingFailed) ==> {
                    &&& refund_fails
                    &&& old(self).only_balances_change(*final(self))
                    &&& final(self).balances.acct(prev.unwrap().0) == (AccountData {
                        free: (old(self).balances.spec_free(prev.unwrap().0)
                            + old(self).balances.spec_reserved(prev.unwrap().0)) as u128,
                        reserved: 0,
                    })
                    &&& old(self).balances.others_same(final(self).balances, prev.unwrap().0)
                }
                &&& r == Err::<(), Error>(Error::EscrowReserveFailed) ==> {
                    &&& !refund_fails
                    &&& value > Self::free_after_refund(old(self).balances, prev, bidder)
                    &&& old(self).only_balances_change(*final(self))
                    &&& match prev {
                        None => *final(self) == *old(self),
                        Some((b1, a1)) => final(self).balances.acct(b1)
                            == Balances::refund_ok_acct(old(self).balances.acct(b1), a1)
                            && old(self).balances.others_same(final(self).balances, b1),
                    }
                }
                &&& (r is Ok || r == Err::<(), Error>(Error::BidNotAccepted)
                    || r == Err::<(), Error>(Error::MintingFailed)
                    || r == Err::<(), Error>(Error::EscrowReserveFailed))
            },
    {
        let i = match kv_find(&self.auctions, id) {
            Some(i) => i,
            None => {
                proof {
                    lemma_kv_contains(self.auctions@, id);
                }
                return Err(Error::AuctionNotExist);
            },
        };
        proof {
            lemma_kv_get(self.auctions@, i as int);
        }
        let auction = self.auctions[i].1;
        if now < auction.start {
            // Pre-start: escrow now, queue the bid at the start slot.
            let queued_bid = crate::types::QueuedBid { bid: (bidder, value), auction_id: id };
            match self.reserve_funds(bidder, value) {
                Ok(()) => {},
                Err(e) => {
                    return Err(e);
                },
            }
            match kv_find(&self.queued_bids, auction.start) {
                Some(k) => {
                    proof {
                        lemma_kv_get(self.queued_bids@, k as int);
                        lemma_kv_update(self.queued_bids@, k as int, queued_bid);
                    }
                    self.queued_bids[k].1 = queued_bid;
                },
                None => {
                    proof {
                        lemma_kv_contains(self.queued_bids@, auction.start);
                        lemma_kv_push(self.queued_bids@, auction.start, queued_bid);
                    }
                    self.queued_bids.push((auction.start, queued_bid));
                },
            }
            self.events.push(Event::BidQueued(bidder, value, id));
            proof {
                Self::lemma_wf_frame_queued(*old(self), *self);
            }
            return Ok(());
        }
        match auction.bid {
            Some(current) => {
                if value <= current.1 {
                    return Err(Error::InvalidBidPrice);
                }
            },
            None => {
                if value == 0 {
                    return Err(Error::InvalidBidPrice);
                }
            },
        }
        let decision = H::on_new_bid(now, id, (bidder, value), auction.bid);
        if !decision.accept_bid {
            return Err(Error::BidNotAccepted);
        }
        let r = self.apply_accepted_bid(id, bidder, value, decision.auction_end);
        proof {
            if r is Ok {
                assert(Self::accepted_post(
                    *old(self),
                    *self,
                    id,
                    bidder,
                    value,
                    decision.auction_end,
                ));
            }
        }
        r
    }

    /// Everything an auto-placed queued bid changes, relative to the state
    /// in which the policy answered `auction_end`.  The bid's escrow was
    /// taken when it was queued, so the ledger does not move here.
    pub open spec fn placed_post(
        pre: Module,
        post: Module,
        qbid: crate::types::QueuedBid,
        auction_end: Option<Option<BlockNumber>>,
    ) -> bool {
        &&& post.am() == pre.am().insert(
            qbid.auction_id,
            Self::bid_updated_record(pre.am()[qbid.auction_id], qbid.bid.0, qbid.bid.1, auction_end),
        )
        &&& post.em() == Self::em_after_decision(pre.em(), qbid.auction_id, auction_end)
        &&& post.events@ == pre.events@.push(
            Event::BidQueuedPlaced(qbid.auction_id, qbid.bid.0, qbid.bid.1),
        )
    }

    /// Place a bid that was queued before its auction started, as if it were
    /// a live bid: the price rule and the acceptance policy still apply, but
    /// no escrow moves, since the amount was reserved at submission time.
    fn place_queued_bid<H: crate::types::AuctionHandler>(
        &mut self,
        qbid: crate::types::QueuedBid,
        now: BlockNumber,
    ) -> (r: Result<(), Error>)
        requires
            old(self).wf(),
        ensures
            final(self).wf(),
            final(self).balances == old(self).balances,
            final(self).next_id == old(self).next_id,
            final(self).queued_bids@ == old(self).queued_bids@,
            !old(self).spec_exists(qbid.auction_id) ==> r == Err::<(), Error>(
                Error::AuctionNotExist,
            ) && *final(self) == *old(self),
            old(self).spec_exists(qbid.auction_id)
                && !Self::price_ok(old(self).am()[qbid.auction_id], qbid.bid.1)
                ==> r == Err::<(), Error>(Error::InvalidBidPrice) && *final(self) == *old(self),
            old(self).spec_exists(qbid.auction_id)
                && Self::price_ok(old(self).am()[qbid.auction_id], qbid.bid.1) ==> {
                &&& r == Err::<(), Error>(Error::BidNotAccepted) ==> *final(self) == *old(self)
                &&& r is Ok ==> exists|ne: Option<Option<BlockNumber>>|
                    Self::placed_post(*old(self), *final(self), qbid, ne)
                &&& (r is Ok || r == Err::<(), Error>(Error::BidNotAccepted))
            },
    {
        let i = match kv_find(&self.auctions, qbid.auction_id) {
            Some(i) => i,
            None => {
                proof {
                    lemma_kv_contains(self.auctions@, qbid.auction_id);
                }
                return Err(Error::AuctionNotExist);
            },
        };
        proof {
            lemma_kv_get(self.auctions@, i as int);
        }
        let auction = self.auctions[i].1;
        match auction.bid {
            Some(current) => {
                if qbid.bid.1 <= current.1 {
                    return Err(Error::InvalidBidPrice);
                }
            },
            None => {
                if qbid.bid.1 == 0 {
                    return Err(Error::InvalidBidPrice);
                }
            },
        }
        let decision = H::on_new_bid(
            now,
            qbid.auction_id,
            (qbid.bid.0, qbid.bid.1),
            auction.bid,
        );
        if !decision.accept_bid {
            return Err(Error::BidNotAccepted);
        }
        let value = qbid.bid.1;
        let parsed: u64 = if value > u64::MAX as u128 {
            u64::MAX
        } else {
            value as u64
        };
        self.commit_bid(
            i,
            qbid.auction_id,
            qbid.bid.0,
            value,
            decision.auction_end,
            parsed,
            Event::BidQueuedPlaced(qbid.auction_id, qbid.bid.0, value),
        );
        proof {
            assert(Self::placed_post(*old(self), *self, qbid, decision.auction_end));
        }
        Ok(())
    }

    /// The pre-step hook: take the queued bid stored under `now`, if any,
    /// and attempt to place it as a live bid.  A rejected attempt drops the
    /// bid without returning its escrow.  When nothing is queued for `now`
    /// the step is a no-op.
    pub fn on_initialize<H: crate::types::AuctionHandler>(&mut self, now: BlockNumber)
        requires
            old(self).wf(),
        ensures
            final(self).wf(),
            final(self).balances == old(self).balances,
            final(self).next_id == old(self).next_id,
            !old(self).qm().contains_key(now) ==> *final(self) == *old(self),
            old(self).qm().contains_key(now) ==> {
                let qb = old(self).qm()[now];
                &&& final(self).qm() == old(self).qm().remove(now)
                &&& final(self).queued_bids@.len() == old(self).queued_bids@.len() - 1
                &&& (final(self).auctions@ == old(self).auctions@
                    && final(self).end_times@ == old(self).end_times@
                    && final(self).events@ == old(self).events@)
                    || exists|ne: Option<Option<BlockNumber>>|
                        Self::placed_post(*old(self), *final(self), qb, ne)
                &&& !(old(self).spec_exists(qb.auction_id)
                    && Self::price_ok(old(self).am()[qb.auction_id], qb.bid.1))
                    ==> final(self).auctions@ == old(self).auctions@
                        && final(self).end_times@ == old(self).end_times@
                        && final(self).events@ == old(self).events@
            },
    {
        let k = match kv_find(&self.queued_bids, now) {
            Some(k) => k,
            None => {
                proof {
                    lemma_kv_contains(self.queued_bids@, now);
                }
                return;
            },
        };
        proof {
            lemma_kv_get(self.queued_bids@, k as int);
            lemma_kv_remove(self.queued_bids@, k as int);
        }
        let entry = self.queued_bids.remove(k);
        let qbid = entry.1;
        let ghost mid = *self;
        proof {
            Self::lemma_wf_frame_queued(*old(self), mid);
        }
        // Attempt the placement; a failure drops the bid, and the host's
        // logs are the only trace of it.
        let _ = self.place_queued_bid::<H>(qbid, now);
        proof {
            assert(mid.am() == old(self).am());
            assert(mid.em() == old(self).em());
            if !(self.auctions@ == old(self).auctions@ && self.end_times@ == old(self).end_times@
                && self.events@ == old(self).events@) {
                let ne = choose|ne: Option<Option<BlockNumber>>|
                    Self::placed_post(mid, *self, qbid, ne);
                assert(Self::placed_post(*old(self), *self, qbid, ne));
            }
        }
    }

    /// The field views of both states are identical.
    pub open spec fn same_state(self, post: Module) -> bool {
        &&& post.auctions@ == self.auctions@
        &&& post.next_id == self.next_id
        &&& post.end_times@ == self.end_times@
        &&& post.queued_bids@ == self.queued_bids@
        &&& post.balances.accounts@ == self.balances.accounts@
        &&& post.events@ == self.events@
    }

    /// The settlement signal for one auction: decided with the winner if a
    /// bid was ever accepted, undecided otherwise.
    pub open spec fn ended_event(id: AuctionId, a: AuctionInfo) -> Event {
        match a.bid {
            Some(p) => Event::AuctionEndDecided(p.0, id),
            None => Event::AuctionEndUndecided(id),
        }
    }

    /// Keeps the arena entries that do not settle at `now`.
    pub open spec fn keep_pred(now: BlockNumber) -> spec_fn((AuctionId, AuctionInfo)) -> bool {
        |e: (AuctionId, AuctionInfo)| e.1.end != Some(now)
    }

    /// Selects the arena entries that settle at `now`.
    pub open spec fn due_pred(now: BlockNumber) -> spec_fn((AuctionId, AuctionInfo)) -> bool {
        |e: (AuctionId, AuctionInfo)| e.1.end == Some(now)
    }

    /// Keeps the index entries whose end time is not `now`.
    pub open spec fn end_keep_pred(now: BlockNumber) -> spec_fn((AuctionId, BlockNumber)) -> bool {
        |e: (AuctionId, BlockNumber)| e.1 != now
    }

    /// Maps a settled arena entry to its settlement signal.
    pub open spec fn ended_map() -> spec_fn((AuctionId, AuctionInfo)) -> Event {
        |e: (AuctionId, AuctionInfo)| Self::ended_event(e.0, e.1)
    }

    /// The settlement signals of one step, in arena (id) order.
    pub open spec fn settlement_events(
        s: Seq<(AuctionId, AuctionInfo)>,
        now: BlockNumber,
    ) -> Seq<Event> {
        s.filter(Self::due_pred(now)).map_values(Self::ended_map())
    }

    /// The post-step hook: drain every auction whose end time is `now`.
    /// Each such record is removed together with its index entry, the
    /// policy's settlement hook is invoked exactly once for it (with `None`
    /// when no bid was ever accepted), and the matching signal is emitted.
    /// When nothing ends at `now` the step is a no-op.
    pub fn on_finalize<H: crate::types::AuctionHandler>(&mut self, now: BlockNumber)
        requires
            old(self).wf(),
        ensures
            final(self).wf(),
            final(self).auctions@ == old(self).auctions@.filter(Self::keep_pred(now)),
            final(self).end_times@ == old(self).end_times@.filter(Self::end_keep_pred(now)),
            final(self).events@ == old(self).events@ + Self::settlement_events(
                old(self).auctions@,
                now,
            ),
            final(self).balances == old(self).balances,
            final(self).next_id == old(self).next_id,
            final(self).queued_bids@ == old(self).queued_bids@,
            forall|id: AuctionId| #[trigger] old(self).spec_exists(id)
                && old(self).am()[id].end == Some(now)
                ==> !final(self).spec_exists(id) && !final(self).em().contains_key(id),
            forall|id: AuctionId| #[trigger] old(self).spec_exists(id)
                && old(self).am()[id].end != Some(now)
                ==> final(self).spec_exists(id) && final(self).am()[id] == old(self).am()[id],
            (forall|id: AuctionId| #[trigger] old(self).spec_exists(id)
                ==> old(self).am()[id].end != Some(now))
                ==> old(self).same_state(*final(self)),
    {
        let ghost pre = *old(self);
        let mut kept: Vec<(AuctionId, AuctionInfo)> = Vec::new();
        let mut i: usize = 0;
        while i < self.auctions.len()
            invariant
                pre.wf(),
                i <= self.auctions@.len(),
                self.auctions@ == pre.auctions@,
                self.end_times@ == pre.end_times@,
                self.queued_bids@ == pre.queued_bids@,
                self.balances == pre.balances,
                self.next_id == pre.next_id,
                kept@ == pre.auctions@.take(i as int).filter(Self::keep_pred(now)),
                self.events@ == pre.events@ + Self::settlement_events(
                    pre.auctions@.take(i as int),
                    now,
                ),
            decreases self.auctions@.len() - i,
        {
            let entry = self.auctions[i];
            let aid = entry.0;
            let a = entry.1;
            proof {
                assert(pre.auctions@.take(i as int + 1) =~= pre.auctions@.take(i as int).push(
                    entry,
                ));
                lemma_kv_get(pre.auctions@, i as int);
                lemma_filter_push(pre.auctions@.take(i as int), entry, Self::keep_pred(now));
                lemma_filter_push(pre.auctions@.take(i as int), entry, Self::due_pred(now));
            }
            let due = match a.end {
                Some(e) => e == now,
                None => false,
            };
            if due {
                H::on_auction_ended(aid, (a.creator, a.slot_origin), a.bid);
                let ev = match a.bid {
                    Some(winner) => Event::AuctionEndDecided(winner.0, aid),
                    None => Event::AuctionEndUndecided(aid),
                };
                self.events.push(ev);
                proof {
                    assert(ev == Self::ended_event(aid, a));
                    let f0 = pre.auctions@.take(i as int).filter(Self::due_pred(now));
                    assert(f0.push(entry).map_values(Self::ended_map())
                        =~= f0.map_values(Self::ended_map()).push(ev));
                    assert(self.events@ =~= pre.events@ + Self::settlement_events(
                        pre.auctions@.take(i as int + 1),
                        now,
                    ));
                }
            } else {
                kept.push((aid, a));
            }
            i = i + 1;
        }
        proof {
            assert(pre.auctions@.take(pre.auctions@.len() as int) =~= pre.auctions@);
        }
        self.auctions = kept;
        // Drop the drained entries from the end-time index.
        let mut kept_end: Vec<(AuctionId, BlockNumber)> = Vec::new();
        let mut j: usize = 0;
        while j < self.end_times.len()
            invariant
                j <= self.end_times@.len(),
                self.end_times@ == pre.end_times@,
                self.auctions@ == pre.auctions@.filter(Self::keep_pred(now)),
                self.queued_bids@ == pre.queued_bids@,
                self.balances == pre.balances,
                self.next_id == pre.next_id,
                self.events@ == pre.events@ + Self::settlement_events(pre.auctions@, now),
                kept_end@ == pre.end_times@.take(j as int).filter(Self::end_keep_pred(now)),
            decreases self.end_times@.len() - j,
        {
            let e = self.end_times[j];
            proof {
                assert(pre.end_times@.take(j as int + 1) =~= pre.end_times@.take(j as int).push(
                    e,
                ));
                lemma_filter_push(pre.end_times@.take(j as int), e, Self::end_keep_pred(now));
            }
            if e.1 != now {
                kept_end.push(e);
            }
            j = j + 1;
        }
        proof {
            assert(pre.end_times@.take(pre.end_times@.len() as int) =~= pre.end_times@);
        }
        self.end_times = kept_end;
        proof {
            Self::lemma_settled_wf(pre, *self, now);
            if forall|id: AuctionId| #[trigger] pre.spec_exists(id)
                ==> pre.am()[id].end != Some(now) {
                assert forall|k: int| 0 <= k < pre.auctions@.len() implies Self::keep_pred(now)(
                    #[trigger] pre.auctions@[k],
                ) by {
                    lemma_kv_get(pre.auctions@, k);
                    assert(pre.spec_exists(pre.auctions@[k].0));
                }
                lemma_filter_all(pre.auctions@, Self::keep_pred(now));
                assert forall|k: int| 0 <= k < pre.auctions@.len() implies !Self::due_pred(now)(
                    #[trigger] pre.auctions@[k],
                ) by {
                    lemma_kv_get(pre.auctions@, k);
                    assert(pre.spec_exists(pre.auctions@[k].0));
                }
                lemma_filter_none(pre.auctions@, Self::due_pred(now));
                assert(Self::settlement_events(pre.auctions@, now)
                    =~= Seq::<(AuctionId, AuctionInfo)>::empty().map_values(Self::ended_map()));
                assert(self.events@ =~= pre.events@);
                assert forall|k: int| 0 <= k < pre.end_times@.len() implies Self::end_keep_pred(
                    now,
                )(#[trigger] pre.end_times@[k]) by {
                    lemma_kv_get(pre.end_times@, k);
                    assert(pre.em().contains_key(pre.end_times@[k].0));
                    assert(pre.spec_exists(pre.end_times@[k].0));
                }
                lemma_filter_all(pre.end_times@, Self::end_keep_pred(now));
            }
        }
    }

    /// After one settlement step the engine is well-formed again, every
    /// record due at `now` is gone together with its index entry, and every
    /// other record is untouched.
    proof fn lemma_settled_wf(pre: Module, post: Module, now: BlockNumber)
        requires
            pre.wf(),
            post.auctions@ == pre.auctions@.filter(Self::keep_pred(now)),
            post.end_times@ == pre.end_times@.filter(Self::end_keep_pred(now)),
            post.next_id == pre.next_id,
            post.queued_bids@ == pre.queued_bids@,
            post.balances == pre.balances,
        ensures
            post.wf(),
            forall|id: AuctionId| #[trigger] pre.spec_exists(id) && pre.am()[id].end == Some(now)
                ==> !post.spec_exists(id) && !post.em().contains_key(id),
            forall|id: AuctionId| #[trigger] pre.spec_exists(id)
                && pre.am()[id].end != Some(now)
                ==> post.spec_exists(id) && post.am()[id] == pre.am()[id],
    {
        let fa = pre.auctions@.filter(Self::keep_pred(now));
        let fe = pre.end_times@.filter(Self::end_keep_pred(now));
        lemma_filter_sorted(pre.auctions@, Self::keep_pred(now));
        lemma_filter_distinct(pre.auctions@, Self::keep_pred(now));
        lemma_filter_distinct(pre.end_times@, Self::end_keep_pred(now));
        // Every kept arena entry is an arena entry of the pre state.
        assert forall|k: int| 0 <= k < fa.len() implies pre.am().contains_key(
            (#[trigger] fa[k]).0,
        ) && pre.am()[fa[k].0] == fa[k].1 && fa[k].1.end != Some(now) by {
            lemma_filter_index(pre.auctions@, Self::keep_pred(now), k);
            let w = choose|w: int| 0 <= w < pre.auctions@.len() && pre.auctions@[w] == fa[k];
            lemma_kv_get(pre.auctions@, w);
            pre.auctions@.lemma_filter_pred(Self::keep_pred(now), k);
        }
        assert forall|a: int| 0 <= a < fa.len() implies (#[trigger] fa[a]).0 < post.next_id by {
            lemma_filter_index(pre.auctions@, Self::keep_pred(now), a);
            let w = choose|w: int| 0 <= w < pre.auctions@.len() && pre.auctions@[w] == fa[a];
        }
        // Every kept index entry is an index entry of the pre state.
        assert forall|k: int| 0 <= k < fe.len() implies pre.em().contains_key(
            (#[trigger] fe[k]).0,
        ) && pre.em()[fe[k].0] == fe[k].1 && fe[k].1 != now by {
            lemma_filter_index(pre.end_times@, Self::end_keep_pred(now), k);
            let w = choose|w: int| 0 <= w < pre.end_times@.len() && pre.end_times@[w] == fe[k];
            lemma_kv_get(pre.end_times@, w);
            pre.end_times@.lemma_filter_pred(Self::end_keep_pred(now), k);
        }
        // A pre-state record not due at `now` survives, with its entry.
        assert forall|id: AuctionId| #[trigger] pre.am().contains_key(id)
            && pre.am()[id].end != Some(now) implies post.am().contains_key(id)
            && post.am()[id] == pre.am()[id] by {
            lemma_kv_contains(pre.auctions@, id);
            let w = choose|w: int| 0 <= w < pre.auctions@.len() && pre.auctions@[w].0 == id;
            lemma_kv_get(pre.auctions@, w);
            pre.auctions@.lemma_filter_contains(Self::keep_pred(now), w);
            let k = choose|k: int| 0 <= k < fa.len() && fa[k] == pre.auctions@[w];
            lemma_kv_get(fa, k);
        }
        assert forall|id: AuctionId| #[trigger] pre.em().contains_key(id)
            && pre.em()[id] != now implies post.em().contains_key(id)
            && post.em()[id] == pre.em()[id] by {
            lemma_kv_contains(pre.end_times@, id);
            let w = choose|w: int| 0 <= w < pre.end_times@.len() && pre.end_times@[w].0 == id;
            lemma_kv_get(pre.end_times@, w);
            pre.end_times@.lemma_filter_contains(Self::end_keep_pred(now), w);
            let k = choose|k: int| 0 <= k < fe.len() && fe[k] == pre.end_times@[w];
            lemma_kv_get(fe, k);
        }
        // A record due at `now` is gone from both tables.
        assert forall|id: AuctionId| #[trigger] pre.spec_exists(id) && pre.am()[id].end
            == Some(now) implies !post.spec_exists(id) && !post.em().contains_key(id) by {
            lemma_kv_contains(fa, id);
            if post.am().contains_key(id) {
                let k = choose|k: int| 0 <= k < fa.len() && fa[k].0 == id;
                assert(pre.am()[(fa[k]).0] == fa[k].1 && fa[k].1.end != Some(now));
            }
            lemma_kv_contains(fe, id);
            if post.em().contains_key(id) {
                let k = choose|k: int| 0 <= k < fe.len() && fe[k].0 == id;
                assert(pre.em()[(fe[k]).0] == fe[k].1 && fe[k].1 != now);
                assert(pre.am()[id].end == Some(pre.em()[id]));
            }
        }
        // The two directions of index consistency, on the filtered tables.
        assert forall|id: AuctionId| #[trigger] post.em().contains_key(id) implies
            post.am().contains_key(id) && post.am()[id].end == Some(post.em()[id]) by {
            lemma_kv_contains(fe, id);
            let k = choose|k: int| 0 <= k < fe.len() && fe[k].0 == id;
            lemma_kv_get(fe, k);
            assert(pre.em().contains_key(id) && pre.em()[id] != now);
            assert(pre.am().contains_key(id) && pre.am()[id].end == Some(pre.em()[id]));
        }
        assert forall|id: AuctionId| #[trigger] post.am().contains_key(id)
            && post.am()[id].end is Some implies
            post.em().contains_key(id) && Some(post.em()[id]) == post.am()[id].end by {
            lemma_kv_contains(fa, id);
            let k = choose|k: int| 0 <= k < fa.len() && fa[k].0 == id;
            lemma_kv_get(fa, k);
            assert(pre.am().contains_key(id) && pre.am()[id] == fa[k].1);
            assert(pre.em().contains_key(id) && Some(pre.em()[id]) == pre.am()[id].end);
            assert(pre.em()[id] != now);
        }
        assert forall|id: AuctionId| #[trigger] post.am().contains_key(id)
            && post.am()[id].bid is Some implies post.am()[id].parsed_bid is Some by {
            lemma_kv_contains(fa, id);
            let k = choose|k: int| 0 <= k < fa.len() && fa[k].0 == id;
            lemma_kv_get(fa, k);
            assert(pre.am().contains_key(id));
        }
    }

    /// Well-formedness survives a step that only changes the ledger, the
    /// queued bids (keys kept distinct) and the event log.
    pub proof fn lemma_wf_frame_queued(pre: Module, post: Module)
        requires
            pre.wf(),
            post.auctions@ == pre.auctions@,
            post.next_id == pre.next_id,
            post.end_times@ == pre.end_times@,
            distinct_keys(post.queued_bids@),
            post.balances.wf(),
        ensures
            post.wf(),
    {
        assert(post.am() == pre.am());
        assert(post.em() == pre.em());
        assert forall|id: AuctionId| #[trigger] post.em().contains_key(id) implies
            post.am().contains_key(id) && post.am()[id].end == Some(post.em()[id]) by {
            assert(pre.em().contains_key(id));
        }
        assert forall|id: AuctionId| #[trigger] post.am().contains_key(id)
            && post.am()[id].end is Some implies
            post.em().contains_key(id) && Some(post.em()[id]) == post.am()[id].end by {
            assert(pre.am().contains_key(id));
        }
        assert forall|id: AuctionId| #[trigger] post.am().contains_key(id)
            && post.am()[id].bid is Some implies post.am()[id].parsed_bid is Some by {
            assert(pre.am().contains_key(id));
        }
        assert forall|a: int, b: int| 0 <= a < b < post.auctions@.len() implies
            (#[trigger] post.auctions@[a]).0 < (#[trigger] post.auctions@[b]).0 by {
            assert(pre.auctions@[a] == post.auctions@[a]);
            assert(pre.auctions@[b] == post.auctions@[b]);
        }
        assert forall|a: int| 0 <= a < post.auctions@.len() implies
            (#[trigger] post.auctions@[a]).0 < post.next_id by {
            assert(pre.auctions@[a] == post.auctions@[a]);
        }
        assert(distinct_keys(post.auctions@));
        assert forall|a: int, b: int| 0 <= a < b < post.end_times@.len() implies
            (#[trigger] post.end_times@[a]).0 != (#[trigger] post.end_times@[b]).0 by {
            assert(pre.end_times@[a] == post.end_times@[a]);
            assert(pre.end_times@[b] == post.end_times@[b]);
        }
    }

    /// Create an auction on behalf of `initiator` and announce it.  The same
    /// validation as `new_auction` is owed by the caller.
    pub fn ext_new_auction(
        &mut self,
        initiator: AccountId,
        terminal: AccountId,
        num_con: GeneralInfo,
        num_teu: GeneralInfo,
        timestamp: GeneralInfo,
        start: BlockNumber,
        end: BlockNumber,
    ) -> (r: Result<(), Error>)
        requires
            old(self).wf(),
            old(self).next_id < u64::MAX,
            initiator != terminal,
            end > start,
        ensures
            final(self).wf(),
            r == Ok::<(), Error>(()),
            final(self).next_id == old(self).next_id + 1,
            final(self).auctions@ == old(self).auctions@.push(
                (
                    old(self).next_id,
                    AuctionInfo {
                        creator: initiator,
                        slot_origin: terminal,
                        bid: None,
                        parsed_bid: None,
                        core: AuctionCoreInfo { timestamp, cargo: (num_con, num_teu) },
                        start,
                        end: Some(end),
                    },
                ),
            ),
            final(self).end_times@ == old(self).end_times@.push((old(self).next_id, end)),
            final(self).queued_bids@ == old(self).queued_bids@,
            final(self).balances == old(self).balances,
            final(self).events@ == old(self).events@.push(
                Event::AuctionCreated(
                    old(self).next_id,
                    initiator,
                    terminal,
                    start,
                    end,
                    timestamp,
                    num_con,
                    num_teu,
                ),
            ),
    {
        let (auction_id, auction) = self.new_auction(
            initiator,
            terminal,
            AuctionCoreInfo { timestamp, cargo: (num_con, num_teu) },
            start,
            Some(end),
        );
        let ghost mid = *self;
        self.events.push(
            Event::AuctionCreated(
                auction_id,
                auction.creator,
                auction.slot_origin,
                auction.start,
                end,
                auction.core.timestamp,
                auction.core.cargo.0,
                auction.core.cargo.1,
            ),
        );
        proof {
            Self::lemma_wf_frame(mid, *self);
        }
        Ok(())
    }

    /// Update an auction on behalf of `initiator` and announce a completed
    /// update whose schedule had and keeps an end time.  Errors from the
    /// update itself are swallowed: the call reports success either way, and
    /// a failed update leaves no trace.
    pub fn ext_update_auction(
        &mut self,
        initiator: AccountId,
        id: AuctionId,
        time: Option<GeneralInfo>,
        num_con: Option<GeneralInfo>,
        num_teu: Option<GeneralInfo>,
        start: Option<BlockNumber>,
        end: Option<BlockNumber>,
        now: BlockNumber,
    ) -> (r: Result<(), Error>)
        requires
            old(self).wf(),
        ensures
            final(self).wf(),
            r == Ok::<(), Error>(()),
            final(self).next_id == old(self).next_id,
            final(self).queued_bids@ == old(self).queued_bids@,
            final(self).balances == old(self).balances,
            !(old(self).spec_exists(id) && old(self).am()[id].creator == initiator
                && old(self).am()[id].bid is None
                && (start is Some ==> old(self).am()[id].start > now && start.unwrap() > now)
                && (start is Some || end is Some ==> Self::schedule_ok(Self::apply_patches(
                    old(self).am()[id],
                    AuctionUpdateInfo { timestamp: time, num_con, num_teu },
                    start,
                    end,
                ))))
                ==> *final(self) == *old(self),
            old(self).spec_exists(id) && old(self).am()[id].creator == initiator
                && old(self).am()[id].bid is None
                && (start is Some ==> old(self).am()[id].start > now && start.unwrap() > now)
                && (start is Some || end is Some ==> Self::schedule_ok(Self::apply_patches(
                    old(self).am()[id],
                    AuctionUpdateInfo { timestamp: time, num_con, num_teu },
                    start,
                    end,
                )))
                ==> {
                let patched = Self::apply_patches(
                    old(self).am()[id],
                    AuctionUpdateInfo { timestamp: time, num_con, num_teu },
                    start,
                    end,
                );
                &&& final(self).am() == old(self).am().insert(id, patched)
                &&& final(self).em() == match end {
                    Some(e) => old(self).em().insert(id, e),
                    None => old(self).em(),
                }
                &&& final(self).events@ == match (old(self).am()[id].end, patched.end) {
                    (Some(old_end), Some(new_end)) => old(self).events@.push(
                        Event::AuctionUpdated(
                            id,
                            old(self).am()[id].core.timestamp,
                            old(self).am()[id].core.cargo.0,
                            old(self).am()[id].core.cargo.1,
                            old(self).am()[id].start,
                            old_end,
                            patched.core.timestamp,
                            patched.core.cargo.0,
                            patched.core.cargo.1,
                            patched.start,
                            new_end,
                        ),
                    ),
                    _ => old(self).events@,
                }
            },
    {
        let event_info = self.update_auction(
            id,
            initiator,
            AuctionUpdateInfo { timestamp: time, num_con, num_teu },
            start,
            end,
            now,
        );
        if let Ok(info) = event_info {
            if let (Some(old_end), Some(new_end)) = (info.old.end, info.new.end) {
                self.events.push(
                    Event::AuctionUpdated(
                        id,
                        info.old.core.timestamp,
                        info.old.core.cargo.0,
                        info.old.core.cargo.1,
                        info.old.start,
                        old_end,
                        info.new.core.timestamp,
                        info.new.core.cargo.0,
                        info.new.core.cargo.1,
                        info.new.start,
                        new_end,
                    ),
                );
            }
        }
        Ok(())
    }

    /// Remove an auction on behalf of `initiator` and announce the removal.
    /// Errors from the removal are swallowed: the call reports success
    /// either way, and a failed removal leaves no trace.
    pub fn ext_remove_auction(&mut self, initiator: AccountId, id: AuctionId) -> (r: Result<
        (),
        Error,
    >)
        requires
            old(self).wf(),
        ensures
            final(self).wf(),
            r == Ok::<(), Error>(()),
            final(self).next_id == old(self).next_id,
            final(self).queued_bids@ == old(self).queued_bids@,
            final(self).balances == old(self).balances,
            !(old(self).spec_exists(id) && old(self).am()[id].creator == initiator)
                ==> *final(self) == *old(self),
            old(self).spec_exists(id) && old(self).am()[id].creator == initiator ==> {
                &&& final(self).am() == old(self).am().remove(id)
                &&& final(self).em() == old(self).em().remove(id)
                &&& final(self).events@ == old(self).events@.push(Event::AuctionDeleted(id))
            },
    {
        let removed = self.remove_auction(id, initiator);
        if let Ok(inner) = removed {
            if inner.is_some() {
                self.events.push(Event::AuctionDeleted(id));
            }
        }
        Ok(())
    }

    /// The record a genesis seed tuple denotes.
    pub open spec fn seed_record(
        seed: (AccountId, AccountId, AuctionCoreInfo, BlockNumber, BlockNumber),
    ) -> AuctionInfo {
        AuctionInfo {
            creator: seed.0,
            slot_origin: seed.1,
            bid: None,
            parsed_bid: None,
            core: seed.2,
            start: seed.3,
            end: Some(seed.4),
        }
    }

    /// Apply an ordered list of genesis seed tuples, one auction each,
    /// through the same creation routine as live calls, so that seeded and
    /// runtime-created state are indistinguishable.  Each seed must satisfy
    /// the creation invariants (distinct parties, end after start).
    pub fn apply_genesis(
        &mut self,
        seeds: &Vec<(AccountId, AccountId, AuctionCoreInfo, BlockNumber, BlockNumber)>,
    )
        requires
            old(self).wf(),
            forall|k: int| 0 <= k < seeds@.len()
                ==> (#[trigger] seeds@[k]).0 != seeds@[k].1 && seeds@[k].4 > seeds@[k].3,
            old(self).next_id + seeds@.len() <= u64::MAX,
        ensures
            final(self).wf(),
            final(self).next_id == old(self).next_id + seeds@.len(),
            final(self).auctions@.len() == old(self).auctions@.len() + seeds@.len(),
            forall|k: int| 0 <= k < old(self).auctions@.len()
                ==> #[trigger] final(self).auctions@[k] == old(self).auctions@[k],
            forall|k: int| 0 <= k < seeds@.len()
                ==> #[trigger] final(self).auctions@[old(self).auctions@.len() + k]
                    == ((old(self).next_id + k) as AuctionId, Self::seed_record(seeds@[k])),
            final(self).queued_bids@ == old(self).queued_bids@,
            final(self).balances == old(self).balances,
            final(self).events@ == old(self).events@,
    {
        let mut k: usize = 0;
        while k < seeds.len()
            invariant
                k <= seeds@.len(),
                seeds@.len() <= u64::MAX,
                forall|k2: int| 0 <= k2 < seeds@.len()
                    ==> (#[trigger] seeds@[k2]).0 != seeds@[k2].1 && seeds@[k2].4 > seeds@[k2].3,
                old(self).next_id + seeds@.len() <= u64::MAX,
                self.wf(),
                self.next_id == old(self).next_id + k,
                self.auctions@.len() == old(self).auctions@.len() + k,
                forall|k2: int| 0 <= k2 < old(self).auctions@.len()
                    ==> #[trigger] self.auctions@[k2] == old(self).auctions@[k2],
                forall|k2: int| 0 <= k2 < k
                    ==> #[trigger] self.auctions@[old(self).auctions@.len() + k2]
                        == ((old(self).next_id + k2) as AuctionId, Self::seed_record(seeds@[k2])),
                self.queued_bids@ == old(self).queued_bids@,
                self.balances == old(self).balances,
                self.events@ == old(self).events@,
            decreases seeds@.len() - k,
        {
            let seed = seeds[k];
            self.new_auction(seed.0, seed.1, seed.2, seed.3, Some(seed.4));
            k = k + 1;
        }
    }

    /// Clamp a balance into the display-safe width, saturating at the top.
    pub open spec fn clamp64(v: Balance) -> u64 {
        if v > u64::MAX {
            u64::MAX
        } else {
            v as u64
        }
    }

    /// A balance as a display value, if it fits the display width.
    pub fn balance_to_u64(input: Balance) -> (r: Option<u64>)
        ensures
            r == if input <= u64::MAX {
                Some(input as u64)
            } else {
                None::<u64>
            },
    {
        if input <= u64::MAX as u128 {
            Some(input as u64)
        } else {
            None
        }
    }

    /// A display value as a balance; every display value fits.
    pub fn u64_to_balance_option(input: u64) -> (r: Option<Balance>)
        ensures
            r == Some(input as Balance),
    {
        Some(input as Balance)
    }
}

} // verus!
