//! Arithmetic over chains: what inserting, removing and overwriting does to the sums.

use crate::ledger::model::{chain_sum, entries, share_of, shares_of};
use crate::reservation::Reservation;
use crate::slab::SlabView;
use vstd::prelude::*;

verus! {

/// The sum only looks at the amounts of the slots on the chain.
pub proof fn chain_sum_frame(
    before: SlabView<Reservation>,
    after: SlabView<Reservation>,
    chain: Seq<u32>,
)
    requires
        forall|k: int|
            0 <= k < chain.len() ==> after.at(#[trigger] chain[k]).amount == before.at(
                chain[k],
            ).amount,
    ensures
        chain_sum(after, chain) == chain_sum(before, chain),
    decreases chain.len(),
{
    if chain.len() > 0 {
        assert forall|k: int| 0 <= k < chain.drop_last().len() implies after.at(
            #[trigger] chain.drop_last()[k],
        ).amount == before.at(chain.drop_last()[k]).amount by {
            assert(chain.drop_last()[k] == chain[k]);
        }
        chain_sum_frame(before, after, chain.drop_last());
        assert(chain.last() == chain[chain.len() - 1]);
    }
}

/// Inserting a slot adds its amount.
pub proof fn chain_sum_insert(claims: SlabView<Reservation>, chain: Seq<u32>, k: int, slot: u32)
    requires
        0 <= k <= chain.len(),
    ensures
        chain_sum(claims, chain.insert(k, slot)) == chain_sum(claims, chain) + claims.at(
            slot,
        ).amount.0,
    decreases chain.len(),
{
    let after = chain.insert(k, slot);
    if k == chain.len() {
        assert(after.drop_last() =~= chain);
    } else {
        assert(after.drop_last() =~= chain.drop_last().insert(k, slot));
        assert(after.last() == chain.last());
        chain_sum_insert(claims, chain.drop_last(), k, slot);
    }
}

/// Removing a slot takes its amount off, so the amount is part of the sum.
pub proof fn chain_sum_remove(claims: SlabView<Reservation>, chain: Seq<u32>, k: int)
    requires
        0 <= k < chain.len(),
    ensures
        chain_sum(claims, chain.remove(k)) + claims.at(chain[k]).amount.0 == chain_sum(
            claims,
            chain,
        ),
        0 <= chain_sum(claims, chain.remove(k)),
{
    chain_sum_insert(claims, chain.remove(k), k, chain[k]);
    assert(chain.remove(k).insert(k, chain[k]) =~= chain);
    chain_sum_natural(claims, chain.remove(k));
}

pub proof fn chain_sum_natural(claims: SlabView<Reservation>, chain: Seq<u32>)
    ensures
        0 <= chain_sum(claims, chain),
    decreases chain.len(),
{
    if chain.len() > 0 {
        chain_sum_natural(claims, chain.drop_last());
    }
}

/// A share only looks at the accounts and amounts of the slots on the list.
pub proof fn share_of_frame(
    before: SlabView<Reservation>,
    after: SlabView<Reservation>,
    list: Seq<u32>,
    account: int,
)
    requires
        forall|k: int|
            0 <= k < list.len() ==> after.at(#[trigger] list[k]).amount == before.at(list[k]).amount
                && after.at(list[k]).account == before.at(list[k]).account,
    ensures
        share_of(after, list, account) == share_of(before, list, account),
    decreases list.len(),
{
    if list.len() > 0 {
        assert forall|k: int| 0 <= k < list.drop_last().len() implies after.at(
            #[trigger] list.drop_last()[k],
        ).amount == before.at(list.drop_last()[k]).amount && after.at(
            list.drop_last()[k],
        ).account == before.at(list.drop_last()[k]).account by {
            assert(list.drop_last()[k] == list[k]);
        }
        share_of_frame(before, after, list.drop_last(), account);
        assert(list.last() == list[list.len() - 1]);
    }
}

/// Putting a slot in front adds its amount to its own account's share.
pub proof fn share_of_push(
    claims: SlabView<Reservation>,
    list: Seq<u32>,
    slot: u32,
    account: int,
)
    ensures
        share_of(claims, seq![slot] + list, account) == share_of(claims, list, account) + (if claims.at(
            slot,
        ).account.0 == account {
            claims.at(slot).amount.0 as int
        } else {
            0
        }),
    decreases list.len(),
{
    let after = seq![slot] + list;
    if list.len() == 0 {
        assert(after.drop_last() =~= list);
        assert(after.last() == slot);
    } else {
        assert(after.drop_last() =~= seq![slot] + list.drop_last());
        assert(after.last() == list.last());
        share_of_push(claims, list.drop_last(), slot, account);
    }
}

pub proof fn share_of_natural(claims: SlabView<Reservation>, list: Seq<u32>, account: int)
    ensures
        0 <= share_of(claims, list, account),
    decreases list.len(),
{
    if list.len() > 0 {
        share_of_natural(claims, list.drop_last(), account);
    }
}

pub proof fn shares_of_natural(claims: SlabView<Reservation>, lists: Seq<Seq<u32>>, account: int)
    ensures
        0 <= shares_of(claims, lists, account),
    decreases lists.len(),
{
    if lists.len() > 0 {
        shares_of_natural(claims, lists.drop_last(), account);
        share_of_natural(claims, lists.last(), account);
    }
}

/// The shares only look at the slots on the lists.
pub proof fn shares_of_frame(
    before: SlabView<Reservation>,
    after: SlabView<Reservation>,
    lists: Seq<Seq<u32>>,
    account: int,
)
    requires
        forall|r: int, k: int|
            0 <= r < lists.len() && 0 <= k < lists[r].len() ==> after.at(
                #[trigger] lists[r][k],
            ).amount == before.at(lists[r][k]).amount && after.at(lists[r][k]).account
                == before.at(lists[r][k]).account,
    ensures
        shares_of(after, lists, account) == shares_of(before, lists, account),
    decreases lists.len(),
{
    if lists.len() > 0 {
        let rest = lists.drop_last();
        assert forall|r: int, k: int| 0 <= r < rest.len() && 0 <= k < rest[r].len() implies after.at(
            #[trigger] rest[r][k],
        ).amount == before.at(rest[r][k]).amount && after.at(rest[r][k]).account == before.at(
            rest[r][k],
        ).account by {
            assert(rest[r] == lists[r]);
            assert(rest[r][k] == lists[r][k]);
        }
        shares_of_frame(before, after, rest, account);
        let last = lists[lists.len() - 1];
        assert(lists.last() == last);
        assert forall|k: int| 0 <= k < last.len() implies after.at(#[trigger] last[k]).amount
            == before.at(last[k]).amount && after.at(last[k]).account == before.at(
            last[k],
        ).account by {
            assert(lists[lists.len() - 1][k] == last[k]);
        }
        share_of_frame(before, after, last, account);
    }
}

/// Replacing one list moves the shares by that list's difference.
pub proof fn shares_of_update(
    claims: SlabView<Reservation>,
    lists: Seq<Seq<u32>>,
    r: int,
    list: Seq<u32>,
    account: int,
)
    requires
        0 <= r < lists.len(),
    ensures
        shares_of(claims, lists.update(r, list), account) == shares_of(claims, lists, account)
            - share_of(claims, lists[r], account) + share_of(claims, list, account),
        share_of(claims, lists[r], account) <= shares_of(claims, lists, account),
    decreases lists.len(),
{
    let after = lists.update(r, list);
    share_of_natural(claims, lists.last(), account);
    shares_of_natural(claims, lists.drop_last(), account);
    if r == lists.len() - 1 {
        assert(after.drop_last() =~= lists.drop_last());
    } else {
        assert(after.drop_last() =~= lists.drop_last().update(r, list));
        shares_of_update(claims, lists.drop_last(), r, list, account);
    }
}

/// Replacing one chain moves the entry count by that chain's difference.
pub proof fn entries_update(chains: Seq<Seq<u32>>, a: int, chain: Seq<u32>)
    requires
        0 <= a < chains.len(),
    ensures
        entries(chains.update(a, chain)) + chains[a].len() == entries(chains) + chain.len(),
    decreases chains.len(),
{
    let after = chains.update(a, chain);
    if a == chains.len() - 1 {
        assert(after.drop_last() =~= chains.drop_last());
    } else {
        assert(after.drop_last() =~= chains.drop_last().update(a, chain));
        entries_update(chains.drop_last(), a, chain);
    }
}

/// Empty chains hold nothing.
pub proof fn entries_none(chains: Seq<Seq<u32>>)
    requires
        forall|a: int| 0 <= a < chains.len() ==> (#[trigger] chains[a]).len() == 0,
    ensures
        entries(chains) == 0,
    decreases chains.len(),
{
    if chains.len() > 0 {
        entries_none(chains.drop_last());
    }
}

/// Empty lists hold no share.
pub proof fn shares_none(claims: SlabView<Reservation>, lists: Seq<Seq<u32>>, account: int)
    requires
        forall|r: int| 0 <= r < lists.len() ==> (#[trigger] lists[r]).len() == 0,
    ensures
        shares_of(claims, lists, account) == 0,
    decreases lists.len(),
{
    if lists.len() > 0 {
        assert(lists.last() == lists[lists.len() - 1]);
        shares_none(claims, lists.drop_last(), account);
    }
}

} // verus!
