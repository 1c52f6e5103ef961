//! The read-only query surface over the auction ledger.
//!
//! Raw queries return records as stored; display ("formal") queries project
//! them for presentation, substituting the clamped display cache for the raw
//! leading amount and deriving liveness from the current time.

use vstd::prelude::*;

use crate::engine::Module;
use crate::kv::{kv_find, lemma_filter_push, lemma_kv_contains, lemma_kv_get};
use crate::types::{AuctionId, AuctionInfo, BlockNumber, UIAuctionInfo};

verus! {

impl Module {
    /// The display projection of one record at time `now`.
    pub open spec fn ui_of(a: AuctionInfo, now: BlockNumber) -> UIAuctionInfo {
        UIAuctionInfo {
            slot_owner: a.creator,
            slot_origin: a.slot_origin,
            slot_time: a.core.timestamp,
            slot_num_cargo: a.core.cargo.0,
            slot_num_teu: a.core.cargo.1,
            auction_is_live: now >= a.start,
            auction_highest_bid: match a.bid {
                Some(p) => Some((p.0, a.parsed_bid.unwrap())),
                None => None,
            },
            auction_end_time: a.end,
        }
    }

    /// Selects the records whose liveness at `now` matches `is_active`
    /// (live means time has reached the start).
    pub open spec fn status_pred(
        is_active: bool,
        now: BlockNumber,
    ) -> spec_fn((AuctionId, AuctionInfo)) -> bool {
        |e: (AuctionId, AuctionInfo)| (now >= e.1.start) == is_active
    }

    /// The record stored under `id`, as stored.
    pub fn auction_query_informal(&self, id: AuctionId) -> (r: Option<AuctionInfo>)
        requires
            self.wf(),
        ensures
            r == if self.spec_exists(id) {
                Some(self.am()[id])
            } else {
                None::<AuctionInfo>
            },
    {
        self.auction_info(id)
    }

    /// Every stored record, in id order, as stored; the no-value sentinel
    /// when the ledger is empty.
    pub fn auction_query_informal_all(&self) -> (r: Option<Vec<AuctionInfo>>)
        requires
            self.wf(),
        ensures
            match r {
                None => self.auctions@.len() == 0,
                Some(v) => v@.len() == self.auctions@.len() && v@.len() > 0
                    && forall|i: int| 0 <= i < v@.len()
                        ==> #[trigger] v@[i] == self.auctions@[i].1,
            },
    {
        let mut query: Vec<AuctionInfo> = Vec::new();
        let mut i: usize = 0;
        while i < self.auctions.len()
            invariant
                i <= self.auctions@.len(),
                query@.len() == i,
                forall|j: int| 0 <= j < i ==> #[trigger] query@[j] == self.auctions@[j].1,
            decreases self.auctions@.len() - i,
        {
            query.push(self.auctions[i].1);
            i = i + 1;
        }
        if query.len() == 0 {
            None
        } else {
            Some(query)
        }
    }

    /// The stored records whose liveness at `now` matches `is_active`, in id
    /// order, as stored; the no-value sentinel when none match.
    pub fn auction_query_informal_all_status(&self, is_active: bool, now: BlockNumber) -> (r:
        Option<Vec<AuctionInfo>>)
        requires
            self.wf(),
        ensures
            ({
                let selected = self.auctions@.filter(Self::status_pred(is_active, now));
                match r {
                    None => selected.len() == 0,
                    Some(v) => v@.len() == selected.len() && v@.len() > 0
                        && forall|i: int| 0 <= i < v@.len()
                            ==> #[trigger] v@[i] == selected[i].1,
                }
            }),
    {
        let mut query: Vec<AuctionInfo> = Vec::new();
        let mut i: usize = 0;
        while i < self.auctions.len()
            invariant
                i <= self.auctions@.len(),
                ({
                    let selected = self.auctions@.take(i as int).filter(
                        Self::status_pred(is_active, now),
                    );
                    query@.len() == selected.len() && forall|j: int| 0 <= j < query@.len()
                        ==> #[trigger] query@[j] == selected[j].1
                }),
            decreases self.auctions@.len() - i,
        {
            let entry = self.auctions[i];
            proof {
                assert(self.auctions@.take(i as int + 1) =~= self.auctions@.take(i as int).push(
                    entry,
                ));
                lemma_filter_push(
                    self.auctions@.take(i as int),
                    entry,
                    Self::status_pred(is_active, now),
                );
            }
            if (now >= entry.1.start) == is_active {
                query.push(entry.1);
            }
            i = i + 1;
        }
        proof {
            assert(self.auctions@.take(self.auctions@.len() as int) =~= self.auctions@);
        }
        if query.len() == 0 {
            None
        } else {
            Some(query)
        }
    }

    /// The display projection of the record stored under `id` at time `now`.
    pub fn auction_query_formal(&self, id: AuctionId, now: BlockNumber) -> (r: Option<
        UIAuctionInfo,
    >)
        requires
            self.wf(),
        ensures
            r == if self.spec_exists(id) {
                Some(Self::ui_of(self.am()[id], now))
            } else {
                None::<UIAuctionInfo>
            },
    {
        match kv_find(&self.auctions, id) {
            Some(i) => {
                proof {
                    lemma_kv_get(self.auctions@, i as int);
                }
                Some(Self::project_record(&self.auctions[i].1, now))
            },
            None => {
                proof {
                    lemma_kv_contains(self.auctions@, id);
                }
                None
            },
        }
    }

    /// The display projections of every stored record at time `now`, in id
    /// order; the no-value sentinel when the ledger is empty.
    pub fn auction_query_formal_all(&self, now: BlockNumber) -> (r: Option<Vec<UIAuctionInfo>>)
        requires
            self.wf(),
        ensures
            match r {
                None => self.auctions@.len() == 0,
                Some(v) => v@.len() == self.auctions@.len() && v@.len() > 0
                    && forall|i: int| 0 <= i < v@.len()
                        ==> #[trigger] v@[i] == Self::ui_of(self.auctions@[i].1, now),
            },
    {
        let mut query: Vec<UIAuctionInfo> = Vec::new();
        let mut i: usize = 0;
        while i < self.auctions.len()
            invariant
                self.wf(),
                i <= self.auctions@.len(),
                query@.len() == i,
                forall|j: int| 0 <= j < i
                    ==> #[trigger] query@[j] == Self::ui_of(self.auctions@[j].1, now),
            decreases self.auctions@.len() - i,
        {
            proof {
                lemma_kv_get(self.auctions@, i as int);
            }
            query.push(Self::project_record(&self.auctions[i].1, now));
            i = i + 1;
        }
        if query.len() == 0 {
            None
        } else {
            Some(query)
        }
    }

    /// The display projections of the records whose liveness at `now`
    /// matches `is_active`, in id order; the no-value sentinel when none
    /// match.
    pub fn auction_query_formal_all_status(&self, is_active: bool, now: BlockNumber) -> (r:
        Option<Vec<UIAuctionInfo>>)
        requires
            self.wf(),
        ensures
            ({
                let selected = self.auctions@.filter(Self::status_pred(is_active, now));
                match r {
                    None => selected.len() == 0,
                    Some(v) => v@.len() == selected.len() && v@.len() > 0
                        && forall|i: int| 0 <= i < v@.len()
                            ==> #[trigger] v@[i] == Self::ui_of(selected[i].1, now),
                }
            }),
    {
        let mut query: Vec<UIAuctionInfo> = Vec::new();
        let mut i: usize = 0;
        while i < self.auctions.len()
            invariant
                self.wf(),
                i <= self.auctions@.len(),
                ({
                    let selected = self.auctions@.take(i as int).filter(
                        Self::status_pred(is_active, now),
                    );
                    query@.len() == selected.len() && forall|j: int| 0 <= j < query@.len()
                        ==> #[trigger] query@[j] == Self::ui_of(selected[j].1, now)
                }),
            decreases self.auctions@.len() - i,
        {
            let entry = self.auctions[i];
            proof {
                lemma_kv_get(self.auctions@, i as int);
                assert(self.auctions@.take(i as int + 1) =~= self.auctions@.take(i as int).push(
                    entry,
                ));
                lemma_filter_push(
                    self.auctions@.take(i as int),
                    entry,
                    Self::status_pred(is_active, now),
                );
            }
            if (now >= entry.1.start) == is_active {
                query.push(Self::project_record(&entry.1, now));
            }
            i = i + 1;
        }
        proof {
            assert(self.auctions@.take(self.auctions@.len() as int) =~= self.auctions@);
        }
        if query.len() == 0 {
            None
        } else {
            Some(query)
        }
    }

    /// Project one record for display.  The display cache stands in for the
    /// raw amount; well-formedness guarantees it is present whenever a
    /// leading bid is.
    fn project_record(a: &AuctionInfo, now: BlockNumber) -> (r: UIAuctionInfo)
        requires
            a.bid is Some ==> a.parsed_bid is Some,
        ensures
            r == Self::ui_of(*a, now),
    {
        let highest: Option<(u64, u64)> = match a.bid {
            Some(p) => match a.parsed_bid {
                Some(cache) => Some((p.0, cache)),
                None => None,
            },
            None => None,
        };
        UIAuctionInfo {
            slot_owner: a.creator,
            slot_origin: a.slot_origin,
            slot_time: a.core.timestamp,
            slot_num_cargo: a.core.cargo.0,
            slot_num_teu: a.core.cargo.1,
            auction_is_live: now >= a.start,
            auction_highest_bid: highest,
            auction_end_time: a.end,
        }
    }
}

/// A query handle over an engine snapshot, the shape in which the read-only
/// surface is handed to a transport layer.
pub struct AuctionInformation {
    /// The snapshot queries are answered from.
    pub module: Module,
}

impl AuctionInformation {
    /// Wrap an engine snapshot.
    pub fn new(module: Module) -> (r: AuctionInformation)
        ensures
            r.module == module,
    {
        AuctionInformation { module }
    }

    /// Whether the auction `id` is stored in the snapshot.
    pub fn auction_exists(&self, id: AuctionId) -> (r: bool)
        ensures
            r == self.module.spec_exists(id),
    {
        self.module.auction_exists(id)
    }

    /// The record stored under `id` in the snapshot, as stored.
    pub fn auction_query_informal(&self, id: AuctionId) -> (r: Option<AuctionInfo>)
        requires
            self.module.wf(),
        ensures
            r == if self.module.spec_exists(id) {
                Some(self.module.am()[id])
            } else {
                None::<AuctionInfo>
            },
    {
        self.module.auction_query_informal(id)
    }
}

} // verus!
