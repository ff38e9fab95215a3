//! What every ledger operation keeps.
//!
//! One law per operation: from a well-formed ledger it leads to a well-formed ledger.

use crate::account::{AccountIdx, MirroredBalance};
use crate::ledger::model::{expiry_of, slot_for, without, LedgerView};
use crate::ledger::sums::{
    chain_sum_frame, chain_sum_insert, chain_sum_remove, entries_none, entries_update,
    share_of_natural, share_of_push, shares_none, shares_of_frame, shares_of_update,
};
use crate::quote::{Quote, QuoteIdx};
use crate::request::{ReqIdx, Request};
use crate::reservation::{ClaimLinks, ResOwner, Reservation};
use crate::slab::{
    handle_extensional, handle_of, SlabView, inserted_wf, live_moves, removed_wf, replaced_wf,
    vacant_wf,
};
use crate::types::{Amount, Ts};
use vstd::prelude::*;

verus! {

/// Where a claim goes: everything before it expires no later, everything after it strictly
/// later.
pub proof fn slot_for_splits(v: LedgerView, chain: Seq<u32>, expires_at: Ts)
    requires
        forall|j: int, k: int|
            0 <= j <= k < chain.len() ==> v.expiry(#[trigger] chain[j]) <= v.expiry(
                #[trigger] chain[k],
            ),
    ensures
        0 <= v.slot_for(chain, expires_at) <= chain.len(),
        forall|k: int|
            0 <= k < v.slot_for(chain, expires_at) ==> v.expiry(#[trigger] chain[k])
                <= expires_at.0,
        forall|k: int|
            v.slot_for(chain, expires_at) <= k < chain.len() ==> v.expiry(#[trigger] chain[k])
                > expires_at.0,
    decreases chain.len(),
{
    if chain.len() > 0 {
        let rest = chain.drop_last();
        assert(chain.last() == chain[chain.len() - 1]);
        if v.expiry(chain.last()) > expires_at.0 {
            assert forall|j: int, k: int| 0 <= j <= k < rest.len() implies v.expiry(
                #[trigger] rest[j],
            ) <= v.expiry(#[trigger] rest[k]) by {
                assert(rest[j] == chain[j] && rest[k] == chain[k]);
            }
            slot_for_splits(v, rest, expires_at);
            assert forall|k: int| 0 <= k < v.slot_for(chain, expires_at) implies v.expiry(
                #[trigger] chain[k],
            ) <= expires_at.0 by {
                assert(rest[k] == chain[k]);
            }
            assert forall|k: int|
                v.slot_for(chain, expires_at) <= k < chain.len() implies v.expiry(
                #[trigger] chain[k],
            ) > expires_at.0 by {
                if k < rest.len() {
                    assert(rest[k] == chain[k]);
                }
            }
        }
    }
}

/// Where a claim goes depends only on the expiries of the claims on the chain.
pub proof fn slot_for_frame(
    before: SlabView<Reservation>,
    after: SlabView<Reservation>,
    chain: Seq<u32>,
    expires_at: Ts,
)
    requires
        forall|k: int|
            0 <= k < chain.len() ==> expiry_of(after, #[trigger] chain[k]) == expiry_of(
                before,
                chain[k],
            ),
    ensures
        slot_for(after, chain, expires_at) == slot_for(before, chain, expires_at),
    decreases chain.len(),
{
    if chain.len() > 0 {
        let rest = chain.drop_last();
        assert(chain.last() == chain[chain.len() - 1]);
        assert forall|k: int| 0 <= k < rest.len() implies expiry_of(after, #[trigger] rest[k])
            == expiry_of(before, rest[k]) by {
            assert(rest[k] == chain[k]);
        }
        slot_for_frame(before, after, rest, expires_at);
    }
}

/// In a chain without duplicates the index of an entry is its position.
pub proof fn index_of_entry(chain: Seq<u32>, k: int)
    requires
        chain.no_duplicates(),
        0 <= k < chain.len(),
    ensures
        chain.index_of(chain[k]) == k,
        without(chain, chain[k]) == chain.remove(k),
{
    assert(chain.contains(chain[k]));
    let j = chain.index_of(chain[k]);
    assert(0 <= j < chain.len() && chain[j] == chain[k]);
}

/// Taking an entry out of a chain without duplicates leaves the others, in order.
pub proof fn without_entry(chain: Seq<u32>, slot: u32)
    requires
        chain.no_duplicates(),
        chain.contains(slot),
    ensures
        ({
            let k = chain.index_of(slot);
            &&& 0 <= k < chain.len()
            &&& chain[k] == slot
            &&& without(chain, slot) == chain.remove(k)
            &&& without(chain, slot).len() + 1 == chain.len()
        }),
        without(chain, slot).no_duplicates(),
        !without(chain, slot).contains(slot),
        forall|other: u32|
            other != slot ==> (#[trigger] without(chain, slot).contains(other) <==> chain.contains(
                other,
            )),
{
    let k = choose|k: int| 0 <= k < chain.len() && chain[k] == slot;
    index_of_entry(chain, k);
    let after = chain.remove(k);
    assert(forall|j: int| 0 <= j < k ==> (#[trigger] after[j]) == chain[j]);
    assert(forall|j: int| k <= j < after.len() ==> (#[trigger] after[j]) == chain[j + 1]);
    assert forall|other: u32| other != slot implies (#[trigger] after.contains(other)
        <==> chain.contains(other)) by {
        if chain.contains(other) {
            let j = choose|j: int| 0 <= j < chain.len() && chain[j] == other;
            if j < k {
                assert(after[j] == other);
            } else {
                assert(after[j - 1] == other);
            }
        }
        if after.contains(other) {
            let j = choose|j: int| 0 <= j < after.len() && after[j] == other;
            if j < k {
                assert(chain[j] == other);
            } else {
                assert(chain[j + 1] == other);
            }
        }
    }
}

/// A sequence of distinct slots is no longer than the slab.
pub proof fn chain_fits(v: LedgerView, chain: Seq<u32>)
    requires
        chain.no_duplicates(),
        forall|k: int| 0 <= k < chain.len() ==> v.claims.occupied(#[trigger] chain[k]),
    ensures
        chain.len() <= v.claims.slots.len(),
{
    let slots = Seq::new(v.claims.slots.len(), |i: int| i as u32).to_set();
    let range = Seq::new(v.claims.slots.len(), |i: int| i as u32);
    assert forall|x: u32| chain.to_set().contains(x) implies range.to_set().contains(x) by {
        assert(chain.contains(x));
        let k = choose|k: int| 0 <= k < chain.len() && chain[k] == x;
        assert(v.claims.occupied(chain[k]));
        assert(range[x as int] == x);
        assert(range.contains(x));
    }
    chain.unique_seq_to_set();
    range.lemma_cardinality_of_set();
    vstd::set_lib::lemma_len_subset(chain.to_set(), range.to_set());
}

/// Claiming capital keeps the ledger well-formed.
pub proof fn reserved_wf(
    v: LedgerView,
    account: AccountIdx,
    amount: Amount,
    expires_at: Ts,
    owner: ResOwner,
)
    requires
        v.wf(),
        v.reserve_refused(account, amount, owner) is None,
    ensures
        v.reserved(account, amount, expires_at, owner).wf(),
{
    broadcast use handle_of;
    let w = v.reserved(account, amount, expires_at, owner);
    let i = v.claims.next_index();
    let a = account.0 as int;
    let claim = Reservation::unlinked(account, amount, owner, expires_at);
    let chain = v.chains[a];
    let at = v.slot_for(chain, expires_at);

    inserted_wf(v.claims, claim);
    live_moves(v.claims, i, claim);
    assert(w.claims == v.claims.inserted(claim));
    match owner {
        ResOwner::Quote(q) => {
            replaced_wf(v.quotes, q.index(), Quote { claim: Some(v.claims.next_handle()), ..v.quotes.of(q) });
        },
        ResOwner::Request(r) => {
            replaced_wf(v.requests, r.index(), Request { claim: Some(v.claims.next_handle()), ..v.requests.of(r) });
        },
    }
    assert(w.shaped());
    assert(v.chain_ok(a));
    slot_for_splits(v, chain, expires_at);
    assert forall|j: u32| v.claims.occupied(j) implies j != i && w.claims.occupied(j)
        && w.claims.at(j) == v.claims.at(j) && w.claims.generation(j) == v.claims.generation(j) by {}

    assert forall|b: int| 0 <= b < w.accounts.len() implies #[trigger] w.chain_ok(b) by {
        assert(v.chain_ok(b));
        if b == a {
            let after = chain.insert(at, i);
            assert(w.chains[a] == after);
            assert forall|k: int| 0 <= k < after.len() implies w.reserved_by(#[trigger] after[k], a) by {
                if k < at {
                    assert(after[k] == chain[k]);
                    assert(v.reserved_by(chain[k], a));
                } else if k > at {
                    assert(after[k] == chain[k - 1]);
                    assert(v.reserved_by(chain[k - 1], a));
                }
            }
            assert forall|j: int, k: int| 0 <= j <= k < after.len() implies w.expiry(
                #[trigger] after[j],
            ) <= w.expiry(#[trigger] after[k]) by {
                assert(j < at ==> after[j] == chain[j] && v.reserved_by(chain[j], a));
                assert(j > at ==> after[j] == chain[j - 1] && v.reserved_by(chain[j - 1], a));
                assert(k < at ==> after[k] == chain[k] && v.reserved_by(chain[k], a));
                assert(k > at ==> after[k] == chain[k - 1] && v.reserved_by(chain[k - 1], a));
            }
            assert(after.no_duplicates()) by {
                assert forall|j: int, k: int| 0 <= j < after.len() && 0 <= k < after.len() && j
                    != k implies after[j] != after[k] by {
                    assert(j < at ==> after[j] == chain[j] && v.reserved_by(chain[j], a));
                    assert(j > at ==> after[j] == chain[j - 1] && v.reserved_by(chain[j - 1], a));
                    assert(k < at ==> after[k] == chain[k] && v.reserved_by(chain[k], a));
                    assert(k > at ==> after[k] == chain[k - 1] && v.reserved_by(chain[k - 1], a));
                }
            }
            chain_sum_insert(w.claims, chain, at, i);
            assert forall|k: int| 0 <= k < chain.len() implies w.claims.at(#[trigger] chain[k]).amount
                == v.claims.at(chain[k]).amount by {
                assert(v.reserved_by(chain[k], a));
            }
            chain_sum_frame(v.claims, w.claims, chain);
        } else {
            let same = v.chains[b];
            assert(w.chains[b] == same);
            assert forall|k: int| 0 <= k < same.len() implies w.reserved_by(#[trigger] same[k], b)
                && w.expiry(same[k]) == v.expiry(same[k]) by {
                assert(v.reserved_by(same[k], b));
            }
            assert forall|k: int| 0 <= k < same.len() implies w.claims.at(#[trigger] same[k]).amount
                == v.claims.at(same[k]).amount by {
                assert(v.reserved_by(same[k], b));
            }
            chain_sum_frame(v.claims, w.claims, same);
        }
    }
    assert forall|r: int| 0 <= r < w.lists.len() implies #[trigger] w.list_ok(r) by {
        assert(v.list_ok(r));
        assert(w.request_handle(r as u32) == v.request_handle(r as u32));
        assert forall|k: int| 0 <= k < w.lists[r].len() implies w.committed_to(
            #[trigger] w.lists[r][k],
            w.request_handle(r as u32),
        ) by {
            assert(v.committed_to(v.lists[r][k], v.request_handle(r as u32)));
        }
    }
    assert forall|b: int| 0 <= b < w.accounts.len() implies #[trigger] w.committed_ok(b) by {
        assert(v.committed_ok(b));
        assert forall|r: int, k: int|
            0 <= r < v.lists.len() && 0 <= k < v.lists[r].len() implies w.claims.at(
            #[trigger] v.lists[r][k],
        ).amount == v.claims.at(v.lists[r][k]).amount && w.claims.at(v.lists[r][k]).account
            == v.claims.at(v.lists[r][k]).account by {
            assert(v.list_ok(r));
            assert(v.committed_to(v.lists[r][k], v.request_handle(r as u32)));
        }
        shares_of_frame(v.claims, w.claims, v.lists, b);
    }
    assert forall|j: u32| #[trigger] w.placed(j) by {
        assert(v.placed(j));
        if j == i {
            assert(chain.insert(at, i)[at] == i);
        } else if w.claims.occupied(j) {
            assert(v.claims.occupied(j));
            if chain.contains(j) {
                let k = choose|k: int| 0 <= k < chain.len() && chain[k] == j;
                if k < at {
                    assert(chain.insert(at, i)[k] == j);
                } else {
                    assert(chain.insert(at, i)[k + 1] == j);
                }
            }
        }
    }
    assert forall|j: u32| #[trigger] w.owned(j) by {
        assert(v.owned(j));
        if j != i && w.claims.occupied(j) {
            assert(v.claims.occupied(j));
        }
    }
    assert forall|j: u32| #[trigger] w.quote_backed(j) by {
        assert(v.quote_backed(j));
        match owner {
            ResOwner::Quote(q) => {
                if q.index() == j {
                    handle_extensional(q, w.quote_handle(j));
                }
            },
            _ => {},
        }
    }
    assert forall|j: u32| #[trigger] w.request_backed(j) by {
        assert(v.request_backed(j));
        match owner {
            ResOwner::Request(q) => {
                if q.index() == j {
                    handle_extensional(q, w.request_handle(j));
                }
            },
            _ => {},
        }
    }
    entries_update(v.chains, a, chain.insert(at, i));
}

/// A chain none of whose claims changed stays in order.
proof fn chain_kept(v: LedgerView, w: LedgerView, b: int)
    requires
        v.chain_ok(b),
        w.chains[b] == v.chains[b],
        w.accounts[b].reserved == v.accounts[b].reserved,
        forall|k: int|
            0 <= k < v.chains[b].len() ==> w.claims.occupied(#[trigger] v.chains[b][k])
                && w.claims.at(v.chains[b][k]) == v.claims.at(v.chains[b][k]),
    ensures
        w.chain_ok(b),
{
    let chain = v.chains[b];
    assert forall|k: int| 0 <= k < chain.len() implies w.reserved_by(#[trigger] chain[k], b)
        && w.expiry(chain[k]) == v.expiry(chain[k]) by {
        assert(v.reserved_by(chain[k], b));
    }
    chain_sum_frame(v.claims, w.claims, chain);
}

/// A list none of whose claims changed stays in order.
proof fn list_kept(v: LedgerView, w: LedgerView, r: int)
    requires
        v.list_ok(r),
        w.lists[r] == v.lists[r],
        w.requests.slots[r].value is None ==> v.requests.slots[r].value is None,
        v.lists[r].len() > 0 ==> w.request_handle(r as u32) == v.request_handle(r as u32),
        forall|k: int|
            0 <= k < v.lists[r].len() ==> w.claims.occupied(#[trigger] v.lists[r][k])
                && w.claims.at(v.lists[r][k]) == v.claims.at(v.lists[r][k]),
    ensures
        w.list_ok(r),
{
    assert forall|k: int| 0 <= k < w.lists[r].len() implies w.committed_to(
        #[trigger] w.lists[r][k],
        w.request_handle(r as u32),
    ) by {
        assert(v.committed_to(v.lists[r][k], v.request_handle(r as u32)));
    }
}

/// A claim on account `a`'s chain is on no other chain and on no list.
pub proof fn reserved_claims_are_apart(v: LedgerView, i: u32, a: int)
    requires
        v.wf(),
        v.reserved_by(i, a),
    ensures
        0 <= a < v.accounts.len(),
        v.chains[a].contains(i),
        forall|b: int, k: int|
            0 <= b < v.chains.len() && b != a && 0 <= k < v.chains[b].len() ==> #[trigger] v.chains[b][k]
                != i,
        forall|r: int, k: int|
            0 <= r < v.lists.len() && 0 <= k < v.lists[r].len() ==> #[trigger] v.lists[r][k] != i,
{
    assert(v.placed(i));
    assert forall|b: int, k: int|
        0 <= b < v.chains.len() && b != a && 0 <= k < v.chains[b].len() implies #[trigger] v.chains[b][k]
        != i by {
        assert(v.chain_ok(b));
        assert(v.reserved_by(v.chains[b][k], b));
    }
    assert forall|r: int, k: int|
        0 <= r < v.lists.len() && 0 <= k < v.lists[r].len() implies #[trigger] v.lists[r][k] != i by {
        assert(v.list_ok(r));
        assert(v.committed_to(v.lists[r][k], v.request_handle(r as u32)));
    }
}

/// No two chains share a claim, and no chain shares one with a list.
pub proof fn chains_are_apart(v: LedgerView, a: int)
    requires
        v.wf(),
        0 <= a < v.accounts.len(),
    ensures
        forall|b: int, k: int|
            0 <= b < v.chains.len() && b != a && 0 <= k < v.chains[b].len()
                ==> !v.chains[a].contains(#[trigger] v.chains[b][k]),
        forall|r: int, k: int|
            0 <= r < v.lists.len() && 0 <= k < v.lists[r].len() ==> !v.chains[a].contains(
                #[trigger] v.lists[r][k],
            ),
{
    assert(v.chain_ok(a));
    assert forall|b: int, k: int|
        0 <= b < v.chains.len() && b != a && 0 <= k < v.chains[b].len() implies !v.chains[a].contains(
        #[trigger] v.chains[b][k],
    ) by {
        assert(v.chain_ok(b));
        assert(v.reserved_by(v.chains[b][k], b));
        if v.chains[a].contains(v.chains[b][k]) {
            let j = choose|j: int|
                0 <= j < v.chains[a].len() && v.chains[a][j] == v.chains[b][k];
            assert(v.reserved_by(v.chains[a][j], a));
        }
    }
    assert forall|r: int, k: int|
        0 <= r < v.lists.len() && 0 <= k < v.lists[r].len() implies !v.chains[a].contains(
        #[trigger] v.lists[r][k],
    ) by {
        assert(v.list_ok(r));
        assert(v.committed_to(v.lists[r][k], v.request_handle(r as u32)));
        if v.chains[a].contains(v.lists[r][k]) {
            let j = choose|j: int| 0 <= j < v.chains[a].len() && v.chains[a][j] == v.lists[r][k];
            assert(v.reserved_by(v.chains[a][j], a));
        }
    }
}

/// No two lists share a claim.
pub proof fn lists_are_apart(v: LedgerView, r: int)
    requires
        v.wf(),
        0 <= r < v.lists.len(),
    ensures
        forall|s: int, k: int|
            0 <= s < v.lists.len() && s != r && 0 <= k < v.lists[s].len()
                ==> !v.lists[r].contains(#[trigger] v.lists[s][k]),
{
    broadcast use handle_of;
    assert(v.list_ok(r));
    assert forall|s: int, k: int|
        0 <= s < v.lists.len() && s != r && 0 <= k < v.lists[s].len() implies !v.lists[r].contains(
        #[trigger] v.lists[s][k],
    ) by {
        assert(v.list_ok(s));
        assert(v.committed_to(v.lists[s][k], v.request_handle(s as u32)));
        if v.lists[r].contains(v.lists[s][k]) {
            let j = choose|j: int| 0 <= j < v.lists[r].len() && v.lists[r][j] == v.lists[s][k];
            assert(v.committed_to(v.lists[r][j], v.request_handle(r as u32)));
            assert(v.request_handle(s as u32).index() == s);
            assert(v.request_handle(r as u32).index() == r);
        }
    }
}

/// A claim on request slot `r`'s list is on no other list and on no chain.
proof fn committed_claims_are_apart(v: LedgerView, i: u32, request: ReqIdx)
    requires
        v.wf(),
        v.committed_to(i, request),
    ensures
        v.requests.names(request),
        v.lists[request.index() as int].contains(i),
        forall|r: int, k: int|
            0 <= r < v.lists.len() && r != request.index() && 0 <= k < v.lists[r].len()
                ==> #[trigger] v.lists[r][k] != i,
        forall|b: int, k: int|
            0 <= b < v.chains.len() && 0 <= k < v.chains[b].len() ==> #[trigger] v.chains[b][k] != i,
{
    broadcast use handle_of;
    assert(v.placed(i));
    assert forall|b: int, k: int|
        0 <= b < v.chains.len() && 0 <= k < v.chains[b].len() implies #[trigger] v.chains[b][k]
        != i by {
        assert(v.chain_ok(b));
        assert(v.reserved_by(v.chains[b][k], b));
    }
    assert forall|r: int, k: int|
        0 <= r < v.lists.len() && r != request.index() && 0 <= k
            < v.lists[r].len() implies #[trigger] v.lists[r][k] != i by {
        assert(v.list_ok(r));
        assert(v.committed_to(v.lists[r][k], v.request_handle(r as u32)));
        assert(v.request_handle(r as u32).index() == r);
    }
}

/// Every claim on a chain or list is in an occupied slot.
pub proof fn threaded_claims_are_live(v: LedgerView)
    requires
        v.wf(),
    ensures
        forall|b: int, k: int|
            0 <= b < v.chains.len() && 0 <= k < v.chains[b].len() ==> v.claims.occupied(
                #[trigger] v.chains[b][k],
            ),
        forall|r: int, k: int|
            0 <= r < v.lists.len() && 0 <= k < v.lists[r].len() ==> v.claims.occupied(
                #[trigger] v.lists[r][k],
            ),
{
    assert forall|b: int, k: int|
        0 <= b < v.chains.len() && 0 <= k < v.chains[b].len() implies v.claims.occupied(
        #[trigger] v.chains[b][k],
    ) by {
        assert(v.chain_ok(b));
        assert(v.reserved_by(v.chains[b][k], b));
    }
    assert forall|r: int, k: int|
        0 <= r < v.lists.len() && 0 <= k < v.lists[r].len() implies v.claims.occupied(
        #[trigger] v.lists[r][k],
    ) by {
        assert(v.list_ok(r));
        assert(v.committed_to(v.lists[r][k], v.request_handle(r as u32)));
    }
}

/// Letting a claim go breaks no link between any other claim and its owner.
proof fn dropped_links(v: LedgerView, u: LedgerView, i: u32)
    requires
        v.wf(),
        v.claims.occupied(i),
        u.claims == v.claims,
        u.quotes == v.quotes,
        u.requests == v.requests,
    ensures
        forall|j: u32| #[trigger] u.dropped(i).owned(j),
        forall|j: u32| #[trigger] u.dropped(i).quote_backed(j),
        forall|j: u32| #[trigger] u.dropped(i).request_backed(j),
        u.dropped(i).claims == v.claims.removed(i),
        u.dropped(i).claims.wf(),
        u.dropped(i).quotes.wf(),
        u.dropped(i).requests.wf(),
        u.dropped(i).claims.live() + 1 == v.claims.live(),
        forall|j: u32|
            v.claims.occupied(j) && j != i ==> #[trigger] u.dropped(i).claims.occupied(j)
                && u.dropped(i).claims.at(j) == v.claims.at(j) && u.dropped(i).claims.generation(j)
                == v.claims.generation(j),
        forall|j: u32| #[trigger] u.dropped(i).claims.occupied(j) ==> v.claims.occupied(j) && j != i,
        u.dropped(i).requests.slots.len() == v.requests.slots.len(),
        forall|j: u32| #[trigger] u.dropped(i).requests.occupied(j) <==> v.requests.occupied(j),
        forall|j: u32|
            j < v.requests.slots.len() ==> #[trigger] u.dropped(i).requests.generation(j)
                == v.requests.generation(j),
        u.dropped(i).accounts == u.accounts,
        u.dropped(i).chains == u.chains,
        u.dropped(i).lists == u.lists,
{
    broadcast use handle_of;
    let w = u.dropped(i);
    let owner = v.claims.at(i).owner;
    assert(v.owned(i));
    removed_wf(v.claims, i);
    live_moves(v.claims, i, v.claims.at(i));
    match owner {
        ResOwner::Quote(q) => {
            replaced_wf(v.quotes, q.index(), Quote { claim: None, ..v.quotes.of(q) });
        },
        ResOwner::Request(r) => {
            replaced_wf(v.requests, r.index(), Request { claim: None, ..v.requests.of(r) });
        },
    }
    assert(w.claims == v.claims.removed(i));
    assert forall|j: u32| v.claims.occupied(j) && j != i implies #[trigger] w.claims.occupied(j)
        && w.claims.at(j) == v.claims.at(j) && w.claims.generation(j) == v.claims.generation(j) by {}
    assert forall|j: u32| #[trigger] w.owned(j) by {
        assert(v.owned(j));
        if w.claims.occupied(j) {
            assert(j != i && v.claims.occupied(j));
            assert(v.claim_handle(j).index() == j);
            assert(v.claim_handle(i).index() == i);
        }
    }
    assert forall|j: u32| #[trigger] w.quote_backed(j) by {
        assert(v.quote_backed(j));
        if w.quotes.occupied(j) && w.quotes.at(j).claim is Some {
            let c = w.quotes.at(j).claim->0;
            assert(v.quotes.at(j).claim == Some(c));
            if c.index() == i {
                assert(owner == ResOwner::Quote(v.quote_handle(j)));
                assert(v.quote_handle(j).index() == j);
                assert(false);
            }
            assert(w.claims.occupied(c.index()));
        }
    }
    assert forall|j: u32| #[trigger] w.request_backed(j) by {
        assert(v.request_backed(j));
        if w.requests.occupied(j) && w.requests.at(j).claim is Some {
            let c = w.requests.at(j).claim->0;
            assert(v.requests.at(j).claim == Some(c));
            if c.index() == i {
                assert(owner == ResOwner::Request(v.request_handle(j)));
                assert(v.request_handle(j).index() == j);
                assert(false);
            }
            assert(w.claims.occupied(c.index()));
        }
    }
}

/// Releasing a reserved claim keeps the ledger well-formed, and the claim's amount is part of
/// its account's reserved total.
pub proof fn released_wf(v: LedgerView, i: u32)
    requires
        v.wf(),
        v.claims.occupied(i),
        v.claims.at(i).links is Reserved,
    ensures
        v.released(i).wf(),
        v.claims.at(i).account.0 < v.accounts.len(),
        v.claims.at(i).amount.0 <= v.accounts[v.claims.at(i).account.0 as int].reserved.0,
{
    let u = v.unchained(i);
    let w = v.released(i);
    let a = v.claims.at(i).account.0 as int;
    assert(v.reserved_by(i, a));
    reserved_claims_are_apart(v, i, a);
    threaded_claims_are_live(v);
    dropped_links(v, u, i);
    assert(v.chain_ok(a));
    let chain = v.chains[a];
    without_entry(chain, i);
    let at = chain.index_of(i);
    let after = without(chain, i);
    chain_sum_remove(v.claims, chain, at);
    assert(w.chains[a] == after);
    assert(w.lists == v.lists);
    assert(w.shaped());

    assert forall|b: int| 0 <= b < w.accounts.len() implies #[trigger] w.chain_ok(b) by {
        assert(v.chain_ok(b));
        if b == a {
            assert(forall|j: int| 0 <= j < at ==> (#[trigger] after[j]) == chain[j]);
            assert(forall|j: int| at <= j < after.len() ==> (#[trigger] after[j]) == chain[j + 1]);
            assert forall|k: int| 0 <= k < after.len() implies w.reserved_by(#[trigger] after[k], a)
                && w.expiry(after[k]) == v.expiry(after[k]) by {
                let from = if k < at { k } else { k + 1 };
                assert(after[k] == chain[from]);
                assert(v.reserved_by(chain[from], a));
                assert(after.contains(after[k]));
                assert(w.claims.occupied(after[k]));
            }
            assert forall|j: int, k: int| 0 <= j <= k < after.len() implies w.expiry(
                #[trigger] after[j],
            ) <= w.expiry(#[trigger] after[k]) by {
                let fj = if j < at { j } else { j + 1 };
                let fk = if k < at { k } else { k + 1 };
                assert(after[j] == chain[fj] && after[k] == chain[fk]);
            }
            assert forall|k: int| 0 <= k < after.len() implies w.claims.at(#[trigger] after[k]).amount
                == v.claims.at(after[k]).amount by {
                assert(w.reserved_by(after[k], a));
                assert(w.claims.occupied(after[k]));
            }
            chain_sum_frame(v.claims, w.claims, after);
        } else {
            assert forall|k: int| 0 <= k < v.chains[b].len() implies w.claims.occupied(
                #[trigger] v.chains[b][k],
            ) && w.claims.at(v.chains[b][k]) == v.claims.at(v.chains[b][k]) by {
                assert(w.claims.occupied(v.chains[b][k]));
            }
            chain_kept(v, w, b);
        }
    }
    assert forall|r: int| 0 <= r < w.lists.len() implies #[trigger] w.list_ok(r) by {
        assert(v.list_ok(r));
        assert(w.requests.occupied(r as u32) <==> v.requests.occupied(r as u32));
        assert(w.requests.generation(r as u32) == v.requests.generation(r as u32));
        assert forall|k: int| 0 <= k < v.lists[r].len() implies w.claims.occupied(
            #[trigger] v.lists[r][k],
        ) && w.claims.at(v.lists[r][k]) == v.claims.at(v.lists[r][k]) by {
            assert(w.claims.occupied(v.lists[r][k]));
        }
        list_kept(v, w, r);
    }
    assert forall|b: int| 0 <= b < w.accounts.len() implies #[trigger] w.committed_ok(b) by {
        assert(v.committed_ok(b));
        assert forall|r: int, k: int|
            0 <= r < v.lists.len() && 0 <= k < v.lists[r].len() implies w.claims.at(
            #[trigger] v.lists[r][k],
        ).amount == v.claims.at(v.lists[r][k]).amount && w.claims.at(v.lists[r][k]).account
            == v.claims.at(v.lists[r][k]).account by {
            assert(w.claims.occupied(v.lists[r][k]));
        }
        shares_of_frame(v.claims, w.claims, v.lists, b);
    }
    assert forall|j: u32| #[trigger] w.placed(j) by {
        assert(v.placed(j));
        if w.claims.occupied(j) {
            match v.claims.at(j).links {
                ClaimLinks::Reserved { .. } => {
                    if v.claims.at(j).account.0 == a {
                        assert(without(chain, i).contains(j));
                    }
                },
                ClaimLinks::Committed { request, .. } => {
                    assert(w.requests.occupied(request.index()));
                    assert(w.requests.generation(request.index()) == v.requests.generation(request.index()));
                },
            }
        }
    }
    entries_update(v.chains, a, after);
}

/// Committing a reserved claim keeps the ledger well-formed.
pub proof fn committed_wf(v: LedgerView, i: u32, request: ReqIdx, keep: Amount)
    requires
        v.wf(),
        v.claims.occupied(i),
        v.claims.at(i).links is Reserved,
        v.requests.names(request),
        keep.0 <= v.claims.at(i).amount.0,
    ensures
        v.committed(i, request, keep).wf(),
        v.claims.at(i).account.0 < v.accounts.len(),
        v.claims.at(i).amount.0 <= v.accounts[v.claims.at(i).account.0 as int].reserved.0,
        v.accounts[v.claims.at(i).account.0 as int].committed.0 + keep.0 <= u64::MAX,
{
    broadcast use handle_of;
    let w = v.committed(i, request, keep);
    let a = v.claims.at(i).account.0 as int;
    let q = request.index() as int;
    assert(v.reserved_by(i, a));
    reserved_claims_are_apart(v, i, a);
    threaded_claims_are_live(v);
    assert(v.chain_ok(a));
    let chain = v.chains[a];
    without_entry(chain, i);
    let at = chain.index_of(i);
    let after = without(chain, i);
    let list = v.lists[q];
    let longer = seq![i] + list;
    chain_sum_remove(v.claims, chain, at);
    replaced_wf(v.claims, i, w.claims.at(i));
    live_moves(v.claims, i, w.claims.at(i));
    assert(w.claims == v.claims.replaced(i, w.claims.at(i)));
    assert(w.chains == v.chains.update(a, after));
    assert(w.lists == v.lists.update(q, longer));
    assert(v.committed_ok(a));
    assert(w.shaped());
    assert forall|j: u32| v.claims.occupied(j) && j != i implies #[trigger] w.claims.occupied(j)
        && w.claims.at(j) == v.claims.at(j) by {}

    assert forall|b: int| 0 <= b < w.accounts.len() implies #[trigger] w.chain_ok(b) by {
        assert(v.chain_ok(b));
        if b == a {
            assert(forall|j: int| 0 <= j < at ==> (#[trigger] after[j]) == chain[j]);
            assert(forall|j: int| at <= j < after.len() ==> (#[trigger] after[j]) == chain[j + 1]);
            assert forall|k: int| 0 <= k < after.len() implies w.reserved_by(#[trigger] after[k], a)
                && w.expiry(after[k]) == v.expiry(after[k]) by {
                let from = if k < at { k } else { k + 1 };
                assert(after[k] == chain[from]);
                assert(v.reserved_by(chain[from], a));
                assert(after.contains(after[k]));
                assert(w.claims.occupied(after[k]));
            }
            assert forall|j: int, k: int| 0 <= j <= k < after.len() implies w.expiry(
                #[trigger] after[j],
            ) <= w.expiry(#[trigger] after[k]) by {
                let fj = if j < at { j } else { j + 1 };
                let fk = if k < at { k } else { k + 1 };
                assert(after[j] == chain[fj] && after[k] == chain[fk]);
            }
            assert forall|k: int| 0 <= k < after.len() implies w.claims.at(#[trigger] after[k]).amount
                == v.claims.at(after[k]).amount by {
                let from = if k < at { k } else { k + 1 };
                assert(after[k] == chain[from]);
                assert(after.contains(after[k]));
                assert(w.claims.occupied(after[k]));
            }
            chain_sum_frame(v.claims, w.claims, after);
        } else {
            assert forall|k: int| 0 <= k < v.chains[b].len() implies w.claims.occupied(
                #[trigger] v.chains[b][k],
            ) && w.claims.at(v.chains[b][k]) == v.claims.at(v.chains[b][k]) by {
                assert(w.claims.occupied(v.chains[b][k]));
            }
            chain_kept(v, w, b);
        }
    }
    assert forall|r: int| 0 <= r < w.lists.len() implies #[trigger] w.list_ok(r) by {
        assert(v.list_ok(r));
        if r == q {
            handle_extensional(request, w.request_handle(r as u32));
            assert(forall|k: int| 0 < k < longer.len() ==> (#[trigger] longer[k]) == list[k - 1]);
            assert forall|k: int| 0 <= k < longer.len() implies w.committed_to(
                #[trigger] longer[k],
                w.request_handle(r as u32),
            ) by {
                if k > 0 {
                    assert(longer[k] == list[k - 1]);
                    assert(v.committed_to(list[k - 1], v.request_handle(r as u32)));
                    assert(v.lists[r][k - 1] != i);
                    assert(w.claims.occupied(longer[k]));
                }
            }
            assert(longer.no_duplicates()) by {
                assert forall|j: int, k: int| 0 <= j < longer.len() && 0 <= k < longer.len() && j
                    != k implies longer[j] != longer[k] by {
                    assert(j > 0 ==> longer[j] == v.lists[r][j - 1]);
                    assert(k > 0 ==> longer[k] == v.lists[r][k - 1]);
                }
            }
        } else {
            assert forall|k: int| 0 <= k < v.lists[r].len() implies w.claims.occupied(
                #[trigger] v.lists[r][k],
            ) && w.claims.at(v.lists[r][k]) == v.claims.at(v.lists[r][k]) by {
                assert(w.claims.occupied(v.lists[r][k]));
            }
            list_kept(v, w, r);
        }
    }
    assert forall|b: int| 0 <= b < w.accounts.len() implies #[trigger] w.committed_ok(b) by {
        assert(v.committed_ok(b));
        assert forall|r: int, k: int|
            0 <= r < v.lists.len() && 0 <= k < v.lists[r].len() implies w.claims.at(
            #[trigger] v.lists[r][k],
        ).amount == v.claims.at(v.lists[r][k]).amount && w.claims.at(v.lists[r][k]).account
            == v.claims.at(v.lists[r][k]).account by {
            assert(w.claims.occupied(v.lists[r][k]));
        }
        shares_of_frame(v.claims, w.claims, v.lists, b);
        shares_of_update(w.claims, v.lists, q, longer, b);
        share_of_push(w.claims, list, i, b);
    }
    assert forall|j: u32| #[trigger] w.placed(j) by {
        assert(v.placed(j));
        if w.claims.occupied(j) {
            if j == i {
                assert(longer[0] == i);
            } else {
                assert(v.claims.occupied(j));
                match v.claims.at(j).links {
                    ClaimLinks::Reserved { .. } => {
                        if v.claims.at(j).account.0 == a {
                            assert(without(chain, i).contains(j));
                        }
                    },
                    ClaimLinks::Committed { request: other, .. } => {
                        if other.index() == q {
                            let k = choose|k: int| 0 <= k < list.len() && list[k] == j;
                            assert(longer[k + 1] == j);
                        }
                    },
                }
            }
        }
    }
    assert forall|j: u32| #[trigger] w.owned(j) by {
        assert(v.owned(j));
    }
    assert forall|j: u32| #[trigger] w.quote_backed(j) by {
        assert(v.quote_backed(j));
    }
    assert forall|j: u32| #[trigger] w.request_backed(j) by {
        assert(v.request_backed(j));
    }
    entries_update(v.chains, a, after);
    entries_update(v.lists, q, longer);
}

/// Discharging the claim at the head of a committed list keeps the ledger well-formed, and the
/// claim's amount is part of its account's committed total.
pub proof fn discharged_one_wf(v: LedgerView, r: int)
    requires
        v.wf(),
        0 <= r < v.lists.len(),
        v.lists[r].len() > 0,
    ensures
        v.discharged_one(r).wf(),
        v.claims.occupied(v.lists[r][0]),
        v.claims.at(v.lists[r][0]).links is Committed,
        v.claims.at(v.lists[r][0]).account.0 < v.accounts.len(),
        v.claims.at(v.lists[r][0]).amount.0 <= v.accounts[v.claims.at(
            v.lists[r][0],
        ).account.0 as int].committed.0,
{
    broadcast use handle_of;
    let i = v.lists[r][0];
    let request = v.request_handle(r as u32);
    let w = v.discharged_one(r);
    assert(v.list_ok(r));
    assert(v.committed_to(i, request));
    assert(v.placed(i));
    committed_claims_are_apart(v, i, request);
    threaded_claims_are_live(v);
    let a = v.claims.at(i).account.0 as int;
    let entry = v.accounts[a];
    let u = LedgerView {
        accounts: v.accounts.update(
            a,
            MirroredBalance {
                committed: Amount((entry.committed.0 - v.claims.at(i).amount.0) as u64),
                ..entry
            },
        ),
        lists: v.lists.update(r, v.lists[r].drop_first()),
        ..v
    };
    assert(w == u.dropped(i));
    dropped_links(v, u, i);
    let list = v.lists[r];
    let rest = list.drop_first();
    assert(list =~= seq![i] + rest);
    assert(v.committed_ok(a));
    share_of_push(v.claims, rest, i, a);
    share_of_natural(v.claims, rest, a);
    shares_of_update(v.claims, v.lists, r, rest, a);
    assert(forall|k: int| 0 <= k < rest.len() ==> (#[trigger] rest[k]) == list[k + 1]);
    assert(w.shaped());

    assert forall|b: int| 0 <= b < w.accounts.len() implies #[trigger] w.chain_ok(b) by {
        assert(v.chain_ok(b));
        assert forall|k: int| 0 <= k < v.chains[b].len() implies w.claims.occupied(
            #[trigger] v.chains[b][k],
        ) && w.claims.at(v.chains[b][k]) == v.claims.at(v.chains[b][k]) by {
            assert(w.claims.occupied(v.chains[b][k]));
        }
        chain_kept(v, w, b);
    }
    assert forall|s: int| 0 <= s < w.lists.len() implies #[trigger] w.list_ok(s) by {
        assert(v.list_ok(s));
        assert(w.requests.occupied(s as u32) <==> v.requests.occupied(s as u32));
        assert(w.requests.generation(s as u32) == v.requests.generation(s as u32));
        if s == r {
            assert forall|k: int| 0 <= k < rest.len() implies w.committed_to(
                #[trigger] rest[k],
                w.request_handle(s as u32),
            ) by {
                assert(rest[k] == list[k + 1]);
                assert(v.committed_to(list[k + 1], request));
                assert(list[k + 1] != list[0]);
                assert(w.claims.occupied(rest[k]));
            }
            assert(rest.no_duplicates()) by {
                assert forall|j: int, k: int| 0 <= j < rest.len() && 0 <= k < rest.len() && j
                    != k implies rest[j] != rest[k] by {
                    assert(rest[j] == list[j + 1] && rest[k] == list[k + 1]);
                }
            }
        } else {
            assert forall|k: int| 0 <= k < v.lists[s].len() implies w.claims.occupied(
                #[trigger] v.lists[s][k],
            ) && w.claims.at(v.lists[s][k]) == v.claims.at(v.lists[s][k]) by {
                assert(w.claims.occupied(v.lists[s][k]));
            }
            list_kept(v, w, s);
        }
    }
    assert forall|b: int| 0 <= b < w.accounts.len() implies #[trigger] w.committed_ok(b) by {
        assert(v.committed_ok(b));
        shares_of_update(v.claims, v.lists, r, rest, b);
        share_of_push(v.claims, rest, i, b);
        assert forall|s: int, k: int|
            0 <= s < w.lists.len() && 0 <= k < w.lists[s].len() implies w.claims.at(
            #[trigger] w.lists[s][k],
        ).amount == v.claims.at(w.lists[s][k]).amount && w.claims.at(w.lists[s][k]).account
            == v.claims.at(w.lists[s][k]).account by {
            assert(w.list_ok(s));
            assert(w.committed_to(w.lists[s][k], w.request_handle(s as u32)));
            assert(w.claims.occupied(w.lists[s][k]));
        }
        shares_of_frame(v.claims, w.claims, w.lists, b);
    }
    assert forall|j: u32| #[trigger] w.placed(j) by {
        assert(v.placed(j));
        if w.claims.occupied(j) {
            match v.claims.at(j).links {
                ClaimLinks::Reserved { .. } => {},
                ClaimLinks::Committed { request: other, .. } => {
                    assert(w.requests.occupied(other.index()));
                    assert(w.requests.generation(other.index()) == v.requests.generation(other.index()));
                    if other.index() == r {
                        let k = choose|k: int| 0 <= k < list.len() && list[k] == j;
                        assert(rest[k - 1] == j);
                    }
                },
            }
        }
    }
    entries_update(v.lists, r, rest);
}

/// A mirror update keeps the ledger well-formed.
pub proof fn mirrored_wf(v: LedgerView, account: AccountIdx, free: Amount)
    requires
        v.wf(),
        account.0 < v.accounts.len(),
    ensures
        v.mirrored(account, free).wf(),
{
    let w = v.mirrored(account, free);
    threaded_claims_are_live(v);
    assert forall|b: int| 0 <= b < w.accounts.len() implies #[trigger] w.chain_ok(b) by {
        assert(v.chain_ok(b));
        chain_kept(v, w, b);
    }
    assert forall|r: int| 0 <= r < w.lists.len() implies #[trigger] w.list_ok(r) by {
        assert(v.list_ok(r));
        list_kept(v, w, r);
    }
    assert forall|b: int| 0 <= b < w.accounts.len() implies #[trigger] w.committed_ok(b) by {
        assert(v.committed_ok(b));
    }
    same_claims_and_owners(v, w);
}

/// Where the claims, their chains and their owners are the same, so are the links between
/// them.
proof fn same_claims_and_owners(v: LedgerView, w: LedgerView)
    requires
        v.wf(),
        w.claims == v.claims,
        w.chains == v.chains,
        w.lists == v.lists,
        w.quotes == v.quotes,
        w.requests == v.requests,
        w.accounts.len() == v.accounts.len(),
    ensures
        forall|j: u32| #[trigger] w.placed(j),
        forall|j: u32| #[trigger] w.owned(j),
        forall|j: u32| #[trigger] w.quote_backed(j),
        forall|j: u32| #[trigger] w.request_backed(j),
{
    assert forall|j: u32| #[trigger] w.placed(j) by {
        assert(v.placed(j));
    }
    assert forall|j: u32| #[trigger] w.owned(j) by {
        assert(v.owned(j));
    }
    assert forall|j: u32| #[trigger] w.quote_backed(j) by {
        assert(v.quote_backed(j));
    }
    assert forall|j: u32| #[trigger] w.request_backed(j) by {
        assert(v.request_backed(j));
    }
}

/// Registering a contract, or recording what the oracle says of one, keeps the ledger
/// well-formed.
pub proof fn contracts_wf(v: LedgerView, w: LedgerView)
    requires
        v.wf(),
        w == (LedgerView { contracts: w.contracts, ..v }),
    ensures
        w.wf(),
{
    threaded_claims_are_live(v);
    assert forall|b: int| 0 <= b < w.accounts.len() implies #[trigger] w.chain_ok(b) by {
        assert(v.chain_ok(b));
        chain_kept(v, w, b);
    }
    assert forall|r: int| 0 <= r < w.lists.len() implies #[trigger] w.list_ok(r) by {
        assert(v.list_ok(r));
        list_kept(v, w, r);
    }
    assert forall|b: int| 0 <= b < w.accounts.len() implies #[trigger] w.committed_ok(b) by {
        assert(v.committed_ok(b));
    }
    same_claims_and_owners(v, w);
}

/// Changing only the quotes keeps the ledger well-formed, as long as every quote that is
/// there before and after holds the same claim, a quote that appears holds none and a quote
/// that goes away held none.
proof fn quotes_changed_wf(v: LedgerView, w: LedgerView)
    requires
        v.wf(),
        w == (LedgerView { quotes: w.quotes, ..v }),
        w.quotes.wf(),
        forall|j: u32| #[trigger]
            v.quotes.occupied(j) && v.quotes.at(j).claim is Some ==> w.quotes.occupied(j)
                && w.quotes.at(j).claim == v.quotes.at(j).claim && w.quotes.generation(j)
                == v.quotes.generation(j),
        forall|j: u32| #[trigger]
            w.quotes.occupied(j) && w.quotes.at(j).claim is Some ==> v.quotes.occupied(j)
                && w.quotes.at(j).claim == v.quotes.at(j).claim && w.quotes.generation(j)
                == v.quotes.generation(j),
    ensures
        w.wf(),
{
    threaded_claims_are_live(v);
    assert forall|b: int| 0 <= b < w.accounts.len() implies #[trigger] w.chain_ok(b) by {
        assert(v.chain_ok(b));
        chain_kept(v, w, b);
    }
    assert forall|r: int| 0 <= r < w.lists.len() implies #[trigger] w.list_ok(r) by {
        assert(v.list_ok(r));
        list_kept(v, w, r);
    }
    assert forall|b: int| 0 <= b < w.accounts.len() implies #[trigger] w.committed_ok(b) by {
        assert(v.committed_ok(b));
    }
    assert forall|j: u32| #[trigger] w.placed(j) by {
        assert(v.placed(j));
    }
    assert forall|j: u32| #[trigger] w.owned(j) by {
        assert(v.owned(j));
        if v.claims.occupied(j) {
            match v.claims.at(j).owner {
                ResOwner::Quote(q) => {
                    assert(v.quotes.occupied(q.index()));
                },
                ResOwner::Request(_) => {},
            }
        }
    }
    assert forall|j: u32| #[trigger] w.quote_backed(j) by {
        assert(v.quote_backed(j));
        if w.quotes.occupied(j) && w.quotes.at(j).claim is Some {
            assert(v.quotes.occupied(j));
        }
    }
    assert forall|j: u32| #[trigger] w.request_backed(j) by {
        assert(v.request_backed(j));
    }
}

/// Opening a quote that holds no claim keeps the ledger well-formed.
pub proof fn quote_opened_wf(v: LedgerView, record: Quote)
    requires
        v.wf(),
        v.quotes.room(),
        record.claim is None,
    ensures
        v.quote_opened(record).wf(),
{
    inserted_wf(v.quotes, record);
    quotes_changed_wf(v, v.quote_opened(record));
}

/// Closing a quote that holds no claim keeps the ledger well-formed.
pub proof fn quote_closed_wf(v: LedgerView, quote: QuoteIdx)
    requires
        v.wf(),
        v.quotes.names(quote),
        v.quotes.of(quote).claim is None,
    ensures
        v.quote_closed(quote).wf(),
{
    removed_wf(v.quotes, quote.index());
    quotes_changed_wf(v, v.quote_closed(quote));
}

/// Rewriting a quote's own fields keeps the ledger well-formed.
pub proof fn quote_rewritten_wf(v: LedgerView, quote: QuoteIdx, record: Quote)
    requires
        v.wf(),
        v.quotes.names(quote),
        record.claim == v.quotes.of(quote).claim,
    ensures
        v.quote_rewritten(quote, record).wf(),
{
    replaced_wf(v.quotes, quote.index(), record);
    quotes_changed_wf(v, v.quote_rewritten(quote, record));
}

/// Changing only the requests keeps the ledger well-formed, as long as every request that is
/// there before and after holds the same claim, a request that appears holds none, and a
/// request that goes away held none and has no committed capital.
proof fn requests_changed_wf(v: LedgerView, w: LedgerView)
    requires
        v.wf(),
        w == (LedgerView { requests: w.requests, ..v }),
        w.requests.wf(),
        w.requests.slots.len() == v.requests.slots.len(),
        forall|j: u32| #[trigger]
            v.requests.occupied(j) && (v.requests.at(j).claim is Some || v.lists[j as int].len()
                > 0) ==> w.requests.occupied(j) && w.requests.at(j).claim == v.requests.at(j).claim
                && w.requests.generation(j) == v.requests.generation(j),
        forall|j: u32| #[trigger]
            w.requests.occupied(j) && w.requests.at(j).claim is Some ==> v.requests.occupied(j)
                && w.requests.at(j).claim == v.requests.at(j).claim && w.requests.generation(j)
                == v.requests.generation(j),
    ensures
        w.wf(),
{
    threaded_claims_are_live(v);
    assert forall|b: int| 0 <= b < w.accounts.len() implies #[trigger] w.chain_ok(b) by {
        assert(v.chain_ok(b));
        chain_kept(v, w, b);
    }
    assert forall|r: int| 0 <= r < w.lists.len() implies #[trigger] w.list_ok(r) by {
        assert(v.list_ok(r));
        if v.lists[r].len() > 0 {
            assert(v.requests.occupied(r as u32));
            list_kept(v, w, r);
        }
    }
    assert forall|b: int| 0 <= b < w.accounts.len() implies #[trigger] w.committed_ok(b) by {
        assert(v.committed_ok(b));
    }
    assert forall|j: u32| #[trigger] w.placed(j) by {
        assert(v.placed(j));
        if v.claims.occupied(j) {
            match v.claims.at(j).links {
                ClaimLinks::Reserved { .. } => {},
                ClaimLinks::Committed { request, .. } => {
                    assert(v.requests.occupied(request.index()));
                },
            }
        }
    }
    assert forall|j: u32| #[trigger] w.owned(j) by {
        assert(v.owned(j));
        if v.claims.occupied(j) {
            match v.claims.at(j).owner {
                ResOwner::Quote(_) => {},
                ResOwner::Request(q) => {
                    assert(v.requests.occupied(q.index()));
                },
            }
        }
    }
    assert forall|j: u32| #[trigger] w.quote_backed(j) by {
        assert(v.quote_backed(j));
    }
    assert forall|j: u32| #[trigger] w.request_backed(j) by {
        assert(v.request_backed(j));
        if w.requests.occupied(j) && w.requests.at(j).claim is Some {
            assert(v.requests.occupied(j));
        }
    }
}

/// Opening a request that holds no claim keeps the ledger well-formed.
pub proof fn request_opened_wf(v: LedgerView, record: Request)
    requires
        v.wf(),
        v.requests.room(),
        record.claim is None,
    ensures
        v.request_opened(record).wf(),
{
    inserted_wf(v.requests, record);
    requests_changed_wf(v, v.request_opened(record));
}

/// Closing a request that holds no claim and no committed capital keeps the ledger
/// well-formed.
pub proof fn request_closed_wf(v: LedgerView, request: ReqIdx)
    requires
        v.wf(),
        v.requests.names(request),
        v.requests.of(request).claim is None,
        v.lists[request.index() as int].len() == 0,
    ensures
        v.request_closed(request).wf(),
{
    removed_wf(v.requests, request.index());
    requests_changed_wf(v, v.request_closed(request));
}

/// Rewriting a request's own fields keeps the ledger well-formed.
pub proof fn request_rewritten_wf(v: LedgerView, request: ReqIdx, record: Request)
    requires
        v.wf(),
        v.requests.names(request),
        record.claim == v.requests.of(request).claim,
    ensures
        v.request_rewritten(request, record).wf(),
{
    replaced_wf(v.requests, request.index(), record);
    requests_changed_wf(v, v.request_rewritten(request, record));
}

/// A fresh ledger is well-formed.
pub proof fn empty_wf(accounts: u32, contracts: u32, claims: u32, requests: u32, quotes: u32)
    requires
        accounts < u32::MAX,
        claims < u32::MAX,
        requests < u32::MAX,
        quotes < u32::MAX,
    ensures
        LedgerView::empty(accounts, contracts, claims, requests, quotes).wf(),
{
    let v = LedgerView::empty(accounts, contracts, claims, requests, quotes);
    vacant_wf::<Reservation>(claims);
    vacant_wf::<Request>(requests);
    vacant_wf::<Quote>(quotes);
    entries_none(v.chains);
    entries_none(v.lists);
    assert forall|a: int| 0 <= a < v.accounts.len() implies #[trigger] v.committed_ok(a) by {
        shares_none(v.claims, v.lists, a);
    }
}

/// Releasing the front of a chain one claim at a time keeps the ledger well-formed, shortens
/// that chain and no other, and leaves every other claim as it was.
pub proof fn released_prefix_wf(v: LedgerView, a: int, n: nat)
    requires
        v.wf(),
        0 <= a < v.accounts.len(),
        n <= v.chains[a].len(),
    ensures
        v.released_prefix(a, n).wf(),
        v.released_prefix(a, n).accounts.len() == v.accounts.len(),
        v.released_prefix(a, n).chains[a] == v.chains[a].skip(n as int),
        forall|b: int|
            0 <= b < v.accounts.len() && b != a ==> #[trigger] v.released_prefix(a, n).chains[b]
                == v.chains[b] && v.released_prefix(a, n).accounts[b] == v.accounts[b],
        v.released_prefix(a, n).accounts[a] == (MirroredBalance {
            reserved: v.released_prefix(a, n).accounts[a].reserved,
            ..v.accounts[a]
        }),
        v.released_prefix(a, n).lists == v.lists,
        v.released_prefix(a, n).contracts == v.contracts,
        v.released_prefix(a, n).claims.slots.len() == v.claims.slots.len(),
    decreases n,
{
    if n > 0 {
        let before = v.released_prefix(a, (n - 1) as nat);
        released_prefix_wf(v, a, (n - 1) as nat);
        let i = before.chains[a][0];
        assert(v.chains[a].skip(n - 1)[0] == v.chains[a][n - 1]);
        assert(before.chain_ok(a));
        assert(before.reserved_by(before.chains[a][0], a));
        released_wf(before, i);
        let u = before.unchained(i);
        dropped_links(before, u, i);
        let w = v.released_prefix(a, n);
        assert(w == before.released(i));
        index_of_entry(before.chains[a], 0);
        assert(w.chains[a] =~= v.chains[a].skip(n as int));
        assert(v.chain_ok(a));
    } else {
        assert(v.released_prefix(a, n) == v);
        assert(v.chains[a].skip(0) =~= v.chains[a]);
    }
}

/// Whether the claim in slot `j` is the same in `v` and `w`.
pub open spec fn same_claim(v: LedgerView, w: LedgerView, j: u32) -> bool {
    &&& w.claims.occupied(j) == v.claims.occupied(j)
    &&& w.claims.occupied(j) ==> w.claims.at(j) == v.claims.at(j)
    &&& w.claims.occupied(j) ==> w.claims.generation(j) == v.claims.generation(j)
}

/// Releasing the front of a chain frees exactly those claims' slots.
pub proof fn released_prefix_claims(v: LedgerView, a: int, n: nat, j: u32)
    requires
        v.wf(),
        0 <= a < v.accounts.len(),
        n <= v.chains[a].len(),
    ensures
        v.chains[a].take(n as int).contains(j) ==> !v.released_prefix(a, n).claims.occupied(j),
        !v.chains[a].take(n as int).contains(j) ==> same_claim(v, v.released_prefix(a, n), j),
    decreases n,
{
    if n > 0 {
        let before = v.released_prefix(a, (n - 1) as nat);
        let w = v.released_prefix(a, n);
        released_prefix_wf(v, a, (n - 1) as nat);
        released_prefix_claims(v, a, (n - 1) as nat, j);
        let i = before.chains[a][0];
        assert(v.chains[a].skip(n - 1)[0] == v.chains[a][n - 1]);
        assert(before.chain_ok(a));
        assert(before.reserved_by(before.chains[a][0], a));
        dropped_links(before, before.unchained(i), i);
        assert(w == before.released(i));
        assert(w.claims == before.claims.removed(i));
        let taken = v.chains[a].take(n as int);
        let shorter = v.chains[a].take(n - 1);
        assert(taken =~= shorter.push(i));
        assert(taken[n - 1] == i);
        if taken.contains(j) {
            let k = choose|k: int| 0 <= k < taken.len() && taken[k] == j;
            if k < n - 1 {
                assert(shorter[k] == j);
            }
        } else {
            if shorter.contains(j) {
                let k = choose|k: int| 0 <= k < shorter.len() && shorter[k] == j;
                assert(taken[k] == j);
            }
            assert(j != i);
        }
    } else {
        assert(v.released_prefix(a, n) == v);
        assert(v.chains[a].take(0).len() == 0);
    }
}

/// Discharging the front of a committed list one claim at a time keeps the ledger well-formed,
/// shortens that list and no other, and leaves every other claim as it was.
pub proof fn discharged_prefix_wf(v: LedgerView, request: ReqIdx, n: nat)
    requires
        v.wf(),
        v.requests.names(request),
        n <= v.lists[request.index() as int].len(),
    ensures
        ({
            let r = request.index() as int;
            let w = v.discharged_prefix(r, n);
            let list = v.lists[r];
            &&& w.wf()
            &&& w.requests.names(request)
            &&& w.requests.slots.len() == v.requests.slots.len()
            &&& w.accounts.len() == v.accounts.len()
            &&& w.chains == v.chains
            &&& w.lists[r] == list.skip(n as int)
            &&& w.contracts == v.contracts
            &&& forall|j: int|
                0 <= j < v.lists.len() && j != r ==> #[trigger] w.lists[j] == v.lists[j]
            &&& forall|k: int|
                n <= k < list.len() ==> w.claims.occupied(#[trigger] list[k]) && w.claims.at(
                    list[k],
                ) == v.claims.at(list[k])
            &&& v.requests.of(request).claim is None ==> w.requests.of(request).claim is None
            &&& v.requests.of(request).claim matches Some(claim) ==> {
                ||| w.requests.of(request).claim is None
                ||| w.requests.of(request).claim == Some(claim) && list.skip(n as int).contains(
                    claim.index(),
                ) || v.claims.of(claim).list() != Some(request)
            }
            &&& n == list.len() && (v.requests.of(request).claim matches Some(claim) ==> v.claims.of(
                claim,
            ).list() == Some(request)) ==> w.requests.of(request).claim is None
        }),
    decreases n,
{
    broadcast use handle_of;
    let r = request.index() as int;
    let list = v.lists[r];
    if n > 0 {
        let before = v.discharged_prefix(r, (n - 1) as nat);
        let w = v.discharged_prefix(r, n);
        discharged_prefix_wf(v, request, (n - 1) as nat);
        let i = before.lists[r][0];
        assert(i == list[n - 1]);
        assert(v.list_ok(r));
        discharged_one_wf(before, r);
        let a = before.claims.at(i).account.0 as int;
        let u = LedgerView {
            accounts: before.accounts.update(
                a,
                MirroredBalance {
                    committed: Amount(
                        (before.accounts[a].committed.0 - before.claims.at(i).amount.0) as u64,
                    ),
                    ..before.accounts[a]
                },
            ),
            lists: before.lists.update(r, before.lists[r].drop_first()),
            ..before
        };
        assert(w == u.dropped(i));
        dropped_links(before, u, i);
        assert(w.lists[r] =~= list.skip(n as int));
        assert(w.requests.occupied(request.index()));
        assert(w.requests.generation(request.index()) == before.requests.generation(request.index()));
        assert forall|k: int| n <= k < list.len() implies w.claims.occupied(#[trigger] list[k])
            && w.claims.at(list[k]) == v.claims.at(list[k]) by {
            assert(list[k] != list[n - 1]);
            assert(before.claims.occupied(list[k]));
            assert(w.claims.occupied(list[k]));
        }
        assert(before.owned(i));
        if v.requests.of(request).claim is Some {
            let claim = v.requests.of(request).claim->0;
            assert(v.request_backed(request.index()));
            handle_extensional(request, v.request_handle(request.index()));
            if before.requests.of(request).claim == Some(claim) && v.claims.of(claim).list() == Some(
                request,
            ) {
                assert(before.request_backed(request.index()));
                if claim.index() == i {
                    assert(w.requests.of(request).claim is None);
                } else {
                    let tail = list.skip(n - 1);
                    let k = choose|k: int| 0 <= k < tail.len() && tail[k] == claim.index();
                    assert(k > 0);
                    assert(list.skip(n as int)[k - 1] == claim.index());
                }
            }
        }
    } else {
        assert(v.discharged_prefix(r, 0) == v);
        assert(list.skip(0) =~= list);
        assert(v.list_ok(r));
        assert forall|k: int| 0 <= k < list.len() implies v.claims.occupied(#[trigger] list[k]) by {
            assert(v.committed_to(list[k], v.request_handle(r as u32)));
        }
        if v.requests.of(request).claim is Some {
            assert(v.request_backed(request.index()));
            assert(v.placed(v.requests.of(request).claim->0.index()));
        }
    }
    if n == list.len() {
        assert(list.skip(n as int).len() == 0);
    }
}

/// The expired prefix of an expiry-ordered chain is exactly its expired claims.
pub proof fn expired_prefix_is(v: LedgerView, chain: Seq<u32>, now: Ts, n: nat)
    requires
        n <= chain.len(),
        forall|k: int| 0 <= k < n ==> v.expiry(#[trigger] chain[k]) <= now.0,
        n < chain.len() ==> v.expiry(chain[n as int]) > now.0,
    ensures
        v.expired_prefix(chain, now) == n,
    decreases n,
{
    if n > 0 {
        assert(v.expiry(chain[0]) <= now.0);
        let rest = chain.drop_first();
        assert forall|k: int| 0 <= k < n - 1 implies v.expiry(#[trigger] rest[k]) <= now.0 by {
            assert(rest[k] == chain[k + 1]);
        }
        assert(n - 1 < rest.len() ==> rest[n - 1] == chain[n as int]);
        expired_prefix_is(v, rest, now, (n - 1) as nat);
    }
}

/// The expired prefix never runs past the chain, and where it stops the chain is live.
pub proof fn expired_prefix_bounds(v: LedgerView, chain: Seq<u32>, now: Ts)
    ensures
        v.expired_prefix(chain, now) <= chain.len(),
        forall|k: int|
            0 <= k < v.expired_prefix(chain, now) ==> v.expiry(#[trigger] chain[k]) <= now.0,
        v.expired_prefix(chain, now) < chain.len() ==> v.expiry(
            chain[v.expired_prefix(chain, now) as int],
        ) > now.0,
    decreases chain.len(),
{
    if chain.len() > 0 && v.expiry(chain[0]) <= now.0 {
        let rest = chain.drop_first();
        expired_prefix_bounds(v, rest, now);
        let n = v.expired_prefix(chain, now);
        assert forall|k: int| 0 <= k < n implies v.expiry(#[trigger] chain[k]) <= now.0 by {
            if k > 0 {
                assert(rest[k - 1] == chain[k]);
            }
        }
        if n < chain.len() {
            assert(rest[n - 1] == chain[n as int]);
        }
    }
}

} // verus!
