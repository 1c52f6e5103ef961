//! The engine's guarantees, stated on their own and proved once for all
//! states, over the same views and predicates the operations' contracts use.

use vstd::prelude::*;

use crate::balances::Balances;
use crate::engine::Module;
use crate::kv::{distinct_keys, lemma_filter_distinct, lemma_kv_contains, lemma_kv_get};
use crate::types::{AccountId, AuctionId, Balance, BlockNumber};

verus! {

/// The ids assigned by `n` consecutive creations from a state whose counter
/// is `c0`: each creation returns the counter and bumps it by one, as
/// `new_auction` and `apply_genesis` ensure, so the k-th creation is
/// assigned `c0 + k`.
pub open spec fn assigned_ids(c0: AuctionId, n: nat) -> Seq<int> {
    Seq::new(n, |k: int| c0 + k)
}

/// Uniqueness: across any sequence of creations, assigned ids are pairwise
/// distinct and strictly increasing.
pub proof fn lemma_assigned_ids_strictly_increasing(c0: AuctionId, n: nat, i: int, j: int)
    requires
        0 <= i < j < n,
    ensures
        assigned_ids(c0, n)[i] < assigned_ids(c0, n)[j],
        assigned_ids(c0, n)[i] != assigned_ids(c0, n)[j],
{
}

/// Uniqueness, against the ledger: the id the next creation assigns (the
/// counter) is distinct from every stored id, because every stored id lies
/// strictly below the counter and ids are never reused.
pub proof fn lemma_next_id_fresh(v: Module)
    requires
        v.wf(),
    ensures
        !v.spec_exists(v.next_id),
        forall|id: AuctionId| #[trigger] v.spec_exists(id) ==> id < v.next_id,
{
    lemma_kv_contains(v.auctions@, v.next_id);
    assert forall|id: AuctionId| #[trigger] v.spec_exists(id) implies id < v.next_id by {
        lemma_kv_contains(v.auctions@, id);
        let i = choose|i: int| 0 <= i < v.auctions@.len() && v.auctions@[i].0 == id;
        assert(v.auctions@[i].0 < v.next_id);
    }
}

/// Price monotonicity: an accepted bid becomes the leading bid and strictly
/// exceeds the previous leading amount, or is nonzero where none existed.
pub proof fn lemma_leading_bid_improves(
    pre: Module,
    post: Module,
    id: AuctionId,
    bidder: AccountId,
    value: Balance,
    auction_end: Option<Option<BlockNumber>>,
)
    requires
        pre.wf(),
        pre.spec_exists(id),
        Module::price_ok(pre.am()[id], value),
        Module::accepted_post(pre, post, id, bidder, value, auction_end),
    ensures
        post.am()[id].bid == Some((bidder, value)),
        match pre.am()[id].bid {
            Some(p) => value > p.1,
            None => value > 0,
        },
{
}

/// Escrow conservation on acceptance: accepting `(b2, a2)` over a previous
/// leading bid `(b1, a1)` of a different bidder releases exactly `a1` from
/// `b1`'s held balance and holds exactly `a2` more of `b2`'s; no other
/// account's balances change.  (The hypothesis that `b1`'s held balance
/// covers `a1` holds whenever escrow bookkeeping is intact.)
pub proof fn lemma_escrow_conservation(
    pre: Balances,
    post: Balances,
    b1: AccountId,
    a1: Balance,
    b2: AccountId,
    a2: Balance,
)
    requires
        pre.wf(),
        b1 != b2,
        a1 <= pre.spec_reserved(b1),
        a2 <= pre.spec_free(b2),
        Module::accept_balances(pre, post, Some((b1, a1)), b2, a2),
    ensures
        post.spec_reserved(b1) == pre.spec_reserved(b1) - a1,
        post.spec_free(b1) == pre.spec_free(b1) + a1,
        post.spec_reserved(b2) == pre.spec_reserved(b2) + a2,
        post.spec_free(b2) == pre.spec_free(b2) - a2,
        forall|x: AccountId| x != b1 && x != b2
            ==> #[trigger] post.acct(x) == pre.acct(x),
{
    pre.lemma_acct_total(b1);
    pre.lemma_acct_total(b2);
}

/// Settlement completeness, per step: the entries drained at `now` carry
/// pairwise distinct ids, an auction whose end is `now` stands at exactly
/// one position of the drained sequence, and the signal at that position is
/// its settlement signal (undecided exactly when no bid was ever accepted).
/// Together with the post-step hook's contract, which appends exactly these
/// signals and removes exactly these records, the hook fires once per entry.
pub proof fn lemma_settlement_exactly_once(pre: Module, now: BlockNumber, id: AuctionId)
    requires
        pre.wf(),
        pre.spec_exists(id),
        pre.am()[id].end == Some(now),
    ensures
        ({
            let settled = pre.auctions@.filter(Module::due_pred(now));
            let signals = Module::settlement_events(pre.auctions@, now);
            &&& distinct_keys(settled)
            &&& exists|k: int| 0 <= k < settled.len() && settled[k] == (id, pre.am()[id])
            &&& forall|k: int| 0 <= k < settled.len() && (#[trigger] settled[k]).0 == id
                ==> settled[k] == (id, pre.am()[id]) && signals[k] == Module::ended_event(
                    id,
                    pre.am()[id],
                )
        }),
{
    let settled = pre.auctions@.filter(Module::due_pred(now));
    lemma_filter_distinct(pre.auctions@, Module::due_pred(now));
    lemma_kv_contains(pre.auctions@, id);
    let w = choose|w: int| 0 <= w < pre.auctions@.len() && pre.auctions@[w].0 == id;
    lemma_kv_get(pre.auctions@, w);
    assert(Module::due_pred(now)(pre.auctions@[w]));
    pre.auctions@.lemma_filter_contains(Module::due_pred(now), w);
    let k0 = choose|k0: int| 0 <= k0 < settled.len() && settled[k0] == pre.auctions@[w];
    assert(settled[k0] == (id, pre.am()[id]));
    assert forall|k: int| 0 <= k < settled.len() && (#[trigger] settled[k]).0 == id implies
        settled[k] == (id, pre.am()[id]) && Module::settlement_events(pre.auctions@, now)[k]
        == Module::ended_event(id, pre.am()[id]) by {
        if k != k0 {
            assert(settled[k].0 != settled[k0].0);
        }
    }
}

} // verus!
