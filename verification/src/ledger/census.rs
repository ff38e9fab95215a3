//! Counting claims slot by slot, and why that is counting them chain by chain.
//!
//! A stored total is a sum along a chain. Where every live claim is on exactly one chain, the one
//! its state puts it on, that is the sum over the account's claims themselves.

use crate::ledger::model::{chain_sum, entries, share_of, shares_of, LedgerView};
use crate::reservation::Reservation;
use crate::slab::{handle_of, live_in, SlabView};
use vstd::prelude::*;

verus! {

/// What `claim` holds of account `a`'s, if it is committed or not as asked.
pub open spec fn holds(a: int, committed: bool) -> spec_fn(Reservation) -> int {
    |claim: Reservation|
        if claim.account.0 == a && (claim.list() is Some) == committed {
            claim.amount.0 as int
        } else {
            0
        }
}

/// One for a claim that is not committed.
pub open spec fn reserves() -> spec_fn(Reservation) -> int {
    |claim: Reservation|
        if claim.list() is None {
            1
        } else {
            0
        }
}

/// The sum of `weight` over the live claims in the first `n` slots.
pub open spec fn over_slots(
    claims: SlabView<Reservation>,
    weight: spec_fn(Reservation) -> int,
    n: nat,
) -> int
    decreases n,
{
    if n == 0 {
        0
    } else {
        over_slots(claims, weight, (n - 1) as nat) + (if claims.occupied((n - 1) as u32) {
            weight(claims.at((n - 1) as u32))
        } else {
            0
        })
    }
}

/// The sum of account `a`'s claims that are committed, or that are not.
pub open spec fn claimed(claims: SlabView<Reservation>, a: int, committed: bool) -> int {
    over_slots(claims, holds(a, committed), claims.slots.len())
}

/// How many live claims are not committed.
pub open spec fn uncommitted(claims: SlabView<Reservation>) -> int {
    over_slots(claims, reserves(), claims.slots.len())
}

/// The sum of `weight` over the claims in the slots of `chain`.
spec fn over_chain(
    claims: SlabView<Reservation>,
    weight: spec_fn(Reservation) -> int,
    chain: Seq<u32>,
) -> int
    decreases chain.len(),
{
    if chain.len() == 0 {
        0
    } else {
        over_chain(claims, weight, chain.drop_last()) + weight(claims.at(chain.last()))
    }
}

/// The chains, one after the other.
spec fn joined(chains: Seq<Seq<u32>>) -> Seq<u32>
    decreases chains.len(),
{
    if chains.len() == 0 {
        Seq::empty()
    } else {
        joined(chains.drop_last()) + chains.last()
    }
}

/// Every entry of the chains satisfies `key` with its chain's number.
spec fn keyed(chains: Seq<Seq<u32>>, key: spec_fn(u32, int) -> bool) -> bool {
    forall|a: int, k: int|
        0 <= a < chains.len() && 0 <= k < chains[a].len() ==> key(#[trigger] chains[a][k], a)
}

/// Some chain below `n` has `i` under `key`.
spec fn under(key: spec_fn(u32, int) -> bool, i: u32, n: nat) -> bool {
    exists|a: int| 0 <= a < n && #[trigger] key(i, a)
}

proof fn joined_is(chains: Seq<Seq<u32>>, key: spec_fn(u32, int) -> bool)
    requires
        keyed(chains, key),
        forall|a: int| 0 <= a < chains.len() ==> (#[trigger] chains[a]).no_duplicates(),
        forall|i: u32, a: int, b: int| #[trigger] key(i, a) && #[trigger] key(i, b) ==> a == b,
    ensures
        joined(chains).len() == entries(chains),
        joined(chains).no_duplicates(),
        forall|k: int|
            0 <= k < joined(chains).len() ==> under(key, #[trigger] joined(chains)[k], chains.len()),
    decreases chains.len(),
{
    if chains.len() > 0 {
        let before = chains.drop_last();
        let n = before.len() as int;
        let last = chains.last();
        assert forall|a: int, k: int|
            0 <= a < before.len() && 0 <= k < before[a].len() implies key(
            #[trigger] before[a][k],
            a,
        ) by {
            assert(before[a] == chains[a]);
            assert(key(chains[a][k], a));
        }
        assert forall|a: int| 0 <= a < before.len() implies (
        #[trigger] before[a]).no_duplicates() by {
            assert(before[a] == chains[a]);
        }
        joined_is(before, key);
        let all = joined(chains);
        let front = joined(before);
        assert(chains[n] == last);
        assert forall|k: int| 0 <= k < all.len() implies under(
            key,
            #[trigger] all[k],
            chains.len(),
        ) by {
            if k < front.len() {
                assert(all[k] == front[k]);
                assert(under(key, front[k], before.len()));
                let a = choose|a: int| 0 <= a < before.len() && #[trigger] key(front[k], a);
                assert(key(all[k], a));
            } else {
                assert(all[k] == chains[n][k - front.len()]);
                assert(key(all[k], n));
            }
        }
        assert forall|j: int, k: int| 0 <= j < k < all.len() implies all[j] != all[k] by {
            if k < front.len() {
                assert(all[j] == front[j] && all[k] == front[k]);
            } else if j < front.len() {
                assert(all[j] == front[j]);
                assert(under(key, front[j], before.len()));
                let a = choose|a: int| 0 <= a < before.len() && #[trigger] key(front[j], a);
                assert(key(all[j], a));
                assert(all[k] == chains[n][k - front.len()]);
                assert(key(all[k], n));
            } else {
                assert(all[j] == last[j - front.len()] && all[k] == last[k - front.len()]);
            }
        }
    }
}

proof fn over_chain_joins(
    claims: SlabView<Reservation>,
    weight: spec_fn(Reservation) -> int,
    a: Seq<u32>,
    b: Seq<u32>,
)
    ensures
        over_chain(claims, weight, a + b) == over_chain(claims, weight, a) + over_chain(
            claims,
            weight,
            b,
        ),
    decreases b.len(),
{
    if b.len() == 0 {
        assert(a + b =~= a);
    } else {
        assert((a + b).drop_last() =~= a + b.drop_last());
        over_chain_joins(claims, weight, a, b.drop_last());
    }
}

proof fn over_chain_remove(
    claims: SlabView<Reservation>,
    weight: spec_fn(Reservation) -> int,
    chain: Seq<u32>,
    k: int,
)
    requires
        0 <= k < chain.len(),
    ensures
        over_chain(claims, weight, chain) == over_chain(claims, weight, chain.remove(k)) + weight(
            claims.at(chain[k]),
        ),
{
    let (a, b) = (chain.take(k), chain.skip(k + 1));
    let one = seq![chain[k]];
    assert(chain =~= a + one + b);
    assert(chain.remove(k) =~= a + b);
    over_chain_joins(claims, weight, a + one, b);
    over_chain_joins(claims, weight, a, one);
    over_chain_joins(claims, weight, a, b);
    assert(one.drop_last() =~= Seq::<u32>::empty());
    assert(over_chain(claims, weight, one.drop_last()) == 0);
}

/// Distinct live slots below `n` are no more than the live slots below `n`.
proof fn distinct_slots_fit(claims: SlabView<Reservation>, all: Seq<u32>, n: nat)
    requires
        n <= claims.slots.len() <= u32::MAX,
        all.no_duplicates(),
        forall|k: int| 0 <= k < all.len() ==> #[trigger] all[k] < n && claims.occupied(all[k]),
    ensures
        all.len() <= live_in(claims.slots.take(n as int)),
    decreases n,
{
    let slots = claims.slots.take(n as int);
    if n == 0 {
        if all.len() > 0 {
            assert(all[0] < n);
        }
    } else {
        let i = (n - 1) as u32;
        assert(slots.drop_last() =~= claims.slots.take(n - 1));
        assert(slots.last() == claims.slots[n - 1]);
        if all.contains(i) {
            let k = all.index_of(i);
            let rest = all.remove(k);
            assert(claims.occupied(all[k]));
            rest_lies_below(claims, all, k, n);
            distinct_slots_fit(claims, rest, (n - 1) as nat);
        } else {
            assert forall|k: int| 0 <= k < all.len() implies #[trigger] all[k] < n - 1
                && claims.occupied(all[k]) by {
                assert(all[k] != i);
            }
            distinct_slots_fit(claims, all, (n - 1) as nat);
        }
    }
}

proof fn rest_lies_below(claims: SlabView<Reservation>, all: Seq<u32>, k: int, n: nat)
    requires
        0 < n <= u32::MAX,
        all.no_duplicates(),
        0 <= k < all.len(),
        all[k] == n - 1,
        forall|j: int| 0 <= j < all.len() ==> #[trigger] all[j] < n && claims.occupied(all[j]),
    ensures
        all.remove(k).no_duplicates(),
        forall|j: int|
            0 <= j < all.remove(k).len() ==> #[trigger] all.remove(k)[j] < n - 1
                && claims.occupied(all.remove(k)[j]),
{
    let rest = all.remove(k);
    assert forall|j: int| 0 <= j < rest.len() implies #[trigger] rest[j] < n - 1
        && claims.occupied(rest[j]) by {
        let from = if j < k {
            j
        } else {
            j + 1
        };
        assert(rest[j] == all[from]);
        assert(all[from] != all[k]);
    }
    assert forall|i: int, j: int| 0 <= i < j < rest.len() implies rest[i] != rest[j] by {
        let from = if i < k {
            i
        } else {
            i + 1
        };
        let to = if j < k {
            j
        } else {
            j + 1
        };
        assert(rest[i] == all[from] && rest[j] == all[to]);
    }
}

/// As many distinct live slots as there are is all of them: a sum over them is a sum over slots.
proof fn all_slots_are_counted(
    claims: SlabView<Reservation>,
    weight: spec_fn(Reservation) -> int,
    all: Seq<u32>,
    n: nat,
)
    requires
        n <= claims.slots.len() <= u32::MAX,
        all.no_duplicates(),
        forall|k: int| 0 <= k < all.len() ==> #[trigger] all[k] < n && claims.occupied(all[k]),
        all.len() == live_in(claims.slots.take(n as int)),
    ensures
        over_chain(claims, weight, all) == over_slots(claims, weight, n),
    decreases n,
{
    let slots = claims.slots.take(n as int);
    if n == 0 {
        assert(slots.len() == 0);
        assert(all.len() == 0);
    } else {
        let i = (n - 1) as u32;
        assert(slots.drop_last() =~= claims.slots.take(n - 1));
        assert(slots.last() == claims.slots[n - 1]);
        if all.contains(i) {
            let k = all.index_of(i);
            assert(claims.occupied(all[k]));
            rest_lies_below(claims, all, k, n);
            all_slots_are_counted(claims, weight, all.remove(k), (n - 1) as nat);
            over_chain_remove(claims, weight, all, k);
        } else {
            assert forall|k: int| 0 <= k < all.len() implies #[trigger] all[k] < n - 1
                && claims.occupied(all[k]) by {
                assert(all[k] != i);
            }
            distinct_slots_fit(claims, all, (n - 1) as nat);
            all_slots_are_counted(claims, weight, all, (n - 1) as nat);
        }
    }
}

/// Every live claim is on exactly one of the chains or lists, the one its state puts it on.
pub open spec fn spread(
    claims: SlabView<Reservation>,
    chains: Seq<Seq<u32>>,
    lists: Seq<Seq<u32>>,
) -> bool {
    &&& claims.slots.len() <= u32::MAX
    &&& forall|a: int| 0 <= a < chains.len() ==> (#[trigger] chains[a]).no_duplicates()
    &&& forall|r: int| 0 <= r < lists.len() ==> (#[trigger] lists[r]).no_duplicates()
    &&& forall|a: int, k: int|
        0 <= a < chains.len() && 0 <= k < chains[a].len() ==> on_chain(
            claims,
            #[trigger] chains[a][k],
            a,
        )
    &&& forall|r: int, k: int|
        0 <= r < lists.len() && 0 <= k < lists[r].len() ==> on_list(
            claims,
            #[trigger] lists[r][k],
            r,
        )
    &&& entries(chains) + entries(lists) == claims.live()
}

/// Slot `i` holds a claim of account `a` that is not committed.
pub open spec fn on_chain(claims: SlabView<Reservation>, i: u32, a: int) -> bool {
    claims.occupied(i) && claims.at(i).list() is None && claims.at(i).account.0 == a
}

/// Slot `i` holds a claim committed to a request in slot `r`.
pub open spec fn on_list(claims: SlabView<Reservation>, i: u32, r: int) -> bool {
    claims.occupied(i) && claims.at(i).list() is Some && claims.at(i).list()->0.index() == r
}

proof fn spread_is_complete(
    claims: SlabView<Reservation>,
    chains: Seq<Seq<u32>>,
    lists: Seq<Seq<u32>>,
    weight: spec_fn(Reservation) -> int,
)
    requires
        spread(claims, chains, lists),
    ensures
        over_chain(claims, weight, joined(chains)) + over_chain(claims, weight, joined(lists))
            == over_slots(claims, weight, claims.slots.len()),
{
    let by_account = |i: u32, a: int| on_chain(claims, i, a);
    let by_request = |i: u32, r: int| on_list(claims, i, r);
    joined_is(chains, by_account);
    joined_is(lists, by_request);
    let (front, back) = (joined(chains), joined(lists));
    let all = front + back;
    assert forall|k: int| 0 <= k < front.len() implies claims.occupied(#[trigger] front[k])
        && claims.at(front[k]).list() is None by {
        assert(under(by_account, front[k], chains.len()));
        let a = choose|a: int| 0 <= a < chains.len() && #[trigger] by_account(front[k], a);
        assert(on_chain(claims, front[k], a));
    }
    assert forall|k: int| 0 <= k < back.len() implies claims.occupied(#[trigger] back[k])
        && claims.at(back[k]).list() is Some by {
        assert(under(by_request, back[k], lists.len()));
        let r = choose|r: int| 0 <= r < lists.len() && #[trigger] by_request(back[k], r);
        assert(on_list(claims, back[k], r));
    }
    assert forall|k: int| 0 <= k < all.len() implies #[trigger] all[k] < claims.slots.len()
        && claims.occupied(all[k]) by {
        if k < front.len() {
            assert(all[k] == front[k]);
        } else {
            assert(all[k] == back[k - front.len()]);
        }
    }
    assert forall|j: int, k: int| 0 <= j < k < all.len() implies all[j] != all[k] by {
        if k < front.len() {
            assert(all[j] == front[j] && all[k] == front[k]);
        } else if j < front.len() {
            assert(all[j] == front[j] && all[k] == back[k - front.len()]);
        } else {
            assert(all[j] == back[j - front.len()] && all[k] == back[k - front.len()]);
        }
    }
    assert(claims.slots.take(claims.slots.len() as int) =~= claims.slots);
    all_slots_are_counted(claims, weight, all, claims.slots.len());
    over_chain_joins(claims, weight, front, back);
}

/// A weight that is nothing on every entry sums to nothing.
proof fn over_nothing(
    claims: SlabView<Reservation>,
    weight: spec_fn(Reservation) -> int,
    chain: Seq<u32>,
)
    requires
        forall|k: int| 0 <= k < chain.len() ==> weight(claims.at(#[trigger] chain[k])) == 0,
    ensures
        over_chain(claims, weight, chain) == 0,
    decreases chain.len(),
{
    if chain.len() > 0 {
        over_nothing(claims, weight, chain.drop_last());
        assert(weight(claims.at(chain[chain.len() - 1])) == 0);
    }
}

proof fn chain_is_weighed(claims: SlabView<Reservation>, chain: Seq<u32>, a: int)
    requires
        forall|k: int| 0 <= k < chain.len() ==> on_chain(claims, #[trigger] chain[k], a),
    ensures
        over_chain(claims, holds(a, false), chain) == chain_sum(claims, chain),
        over_chain(claims, reserves(), chain) == chain.len(),
    decreases chain.len(),
{
    if chain.len() > 0 {
        chain_is_weighed(claims, chain.drop_last(), a);
        assert(on_chain(claims, chain[chain.len() - 1], a));
    }
}

proof fn chains_are_weighed(
    claims: SlabView<Reservation>,
    chains: Seq<Seq<u32>>,
    a: int,
)
    requires
        forall|b: int, k: int|
            0 <= b < chains.len() && 0 <= k < chains[b].len() ==> on_chain(
                claims,
                #[trigger] chains[b][k],
                b,
            ),
    ensures
        over_chain(claims, reserves(), joined(chains)) == entries(chains),
        over_chain(claims, holds(a, true), joined(chains)) == 0,
        over_chain(claims, holds(a, false), joined(chains)) == (if 0 <= a < chains.len() {
            chain_sum(claims, chains[a])
        } else {
            0
        }),
    decreases chains.len(),
{
    if chains.len() > 0 {
        let before = chains.drop_last();
        let n = before.len() as int;
        let last = chains.last();
        assert forall|b: int, k: int|
            0 <= b < before.len() && 0 <= k < before[b].len() implies on_chain(
            claims,
            #[trigger] before[b][k],
            b,
        ) by {
            assert(before[b] == chains[b]);
            assert(on_chain(claims, chains[b][k], b));
        }
        chains_are_weighed(claims, before, a);
        assert forall|k: int| 0 <= k < last.len() implies on_chain(
            claims,
            #[trigger] last[k],
            n,
        ) by {
            assert(on_chain(claims, chains[n][k], n));
        }
        chain_is_weighed(claims, last, n);
        over_chain_joins(claims, reserves(), joined(before), last);
        over_chain_joins(claims, holds(a, true), joined(before), last);
        over_chain_joins(claims, holds(a, false), joined(before), last);
        over_nothing(claims, holds(a, true), last);
        if a != n {
            over_nothing(claims, holds(a, false), last);
        }
    } else {
        assert(joined(chains) == Seq::<u32>::empty());
    }
}

proof fn list_is_weighed(claims: SlabView<Reservation>, list: Seq<u32>, r: int, a: int)
    requires
        forall|k: int| 0 <= k < list.len() ==> on_list(claims, #[trigger] list[k], r),
    ensures
        over_chain(claims, holds(a, true), list) == share_of(claims, list, a),
        over_chain(claims, holds(a, false), list) == 0,
        over_chain(claims, reserves(), list) == 0,
    decreases list.len(),
{
    if list.len() > 0 {
        list_is_weighed(claims, list.drop_last(), r, a);
        assert(on_list(claims, list[list.len() - 1], r));
    }
}

proof fn lists_are_weighed(claims: SlabView<Reservation>, lists: Seq<Seq<u32>>, a: int)
    requires
        forall|r: int, k: int|
            0 <= r < lists.len() && 0 <= k < lists[r].len() ==> on_list(
                claims,
                #[trigger] lists[r][k],
                r,
            ),
    ensures
        over_chain(claims, holds(a, true), joined(lists)) == shares_of(claims, lists, a),
        over_chain(claims, holds(a, false), joined(lists)) == 0,
        over_chain(claims, reserves(), joined(lists)) == 0,
    decreases lists.len(),
{
    if lists.len() > 0 {
        let before = lists.drop_last();
        let n = before.len() as int;
        let last = lists.last();
        assert forall|r: int, k: int|
            0 <= r < before.len() && 0 <= k < before[r].len() implies on_list(
            claims,
            #[trigger] before[r][k],
            r,
        ) by {
            assert(before[r] == lists[r]);
            assert(on_list(claims, lists[r][k], r));
        }
        lists_are_weighed(claims, before, a);
        assert forall|k: int| 0 <= k < last.len() implies on_list(
            claims,
            #[trigger] last[k],
            n,
        ) by {
            assert(on_list(claims, lists[n][k], n));
        }
        list_is_weighed(claims, last, n, a);
        over_chain_joins(claims, reserves(), joined(before), last);
        over_chain_joins(claims, holds(a, true), joined(before), last);
        over_chain_joins(claims, holds(a, false), joined(before), last);
    } else {
        assert(joined(lists) == Seq::<u32>::empty());
    }
}

/// **A chain's sum is the account's sum**: where every live claim is on exactly one chain, summing
/// along an account's chain is summing its claims that are not committed, its shares of the lists
/// are its committed claims, and the chains hold as many entries as there are uncommitted claims.
pub proof fn chains_count_the_claims(
    claims: SlabView<Reservation>,
    chains: Seq<Seq<u32>>,
    lists: Seq<Seq<u32>>,
    a: int,
)
    requires
        spread(claims, chains, lists),
    ensures
        0 <= a < chains.len() ==> chain_sum(claims, chains[a]) == claimed(claims, a, false),
        shares_of(claims, lists, a) == claimed(claims, a, true),
        entries(chains) == uncommitted(claims),
{
    spread_is_complete(claims, chains, lists, holds(a, false));
    spread_is_complete(claims, chains, lists, holds(a, true));
    spread_is_complete(claims, chains, lists, reserves());
    chains_are_weighed(claims, chains, a);
    lists_are_weighed(claims, lists, a);
}

impl LedgerView {
    /// The stored totals are the sums over the claims, expired ones included, and a claim and
    /// its owner point at each other.
    pub open spec fn accounted(self) -> bool {
        &&& forall|a: int|
            0 <= a < self.accounts.len() ==> (#[trigger] self.accounts[a]).reserved.0 == claimed(
                self.claims,
                a,
                false,
            )
        &&& forall|a: int|
            0 <= a < self.accounts.len() ==> (#[trigger] self.accounts[a]).committed.0 == claimed(
                self.claims,
                a,
                true,
            )
        &&& forall|i: u32| #[trigger] self.owned(i)
        &&& forall|i: u32| #[trigger] self.quote_backed(i)
        &&& forall|i: u32| #[trigger] self.request_backed(i)
    }
}

/// **A well-formed ledger is accounted for**: every total is the sum over the account's claims,
/// and the expiry chains hold exactly the claims that are not committed.
pub proof fn well_formed_ledgers_are_accounted(v: LedgerView)
    requires
        v.wf(),
    ensures
        v.accounted(),
        entries(v.chains) == uncommitted(v.claims),
{
    broadcast use handle_of;

    assert(spread(v.claims, v.chains, v.lists)) by {
        assert forall|a: int| 0 <= a < v.chains.len() implies (
        #[trigger] v.chains[a]).no_duplicates() by {
            assert(v.chain_ok(a));
        }
        assert forall|r: int| 0 <= r < v.lists.len() implies (
        #[trigger] v.lists[r]).no_duplicates() by {
            assert(v.list_ok(r));
        }
        assert forall|a: int, k: int|
            0 <= a < v.chains.len() && 0 <= k < v.chains[a].len() implies on_chain(
            v.claims,
            #[trigger] v.chains[a][k],
            a,
        ) by {
            assert(v.chain_ok(a));
            assert(v.reserved_by(v.chains[a][k], a));
        }
        assert forall|r: int, k: int|
            0 <= r < v.lists.len() && 0 <= k < v.lists[r].len() implies on_list(
            v.claims,
            #[trigger] v.lists[r][k],
            r,
        ) by {
            assert(v.list_ok(r));
            assert(v.committed_to(v.lists[r][k], v.request_handle(r as u32)));
        }
    }
    chains_count_the_claims(v.claims, v.chains, v.lists, 0);
    assert forall|a: int| 0 <= a < v.accounts.len() implies (
    #[trigger] v.accounts[a]).reserved.0 == claimed(v.claims, a, false)
        && v.accounts[a].committed.0 == claimed(v.claims, a, true) by {
        assert(v.chain_ok(a));
        assert(v.committed_ok(a));
        chains_count_the_claims(v.claims, v.chains, v.lists, a);
    }
}

/// Claims alike but for their links are counted alike.
pub proof fn counted_alike(
    a: SlabView<Reservation>,
    b: SlabView<Reservation>,
    weight: spec_fn(Reservation) -> int,
    n: nat,
)
    requires
        n <= a.slots.len() <= u32::MAX,
        a.slots.len() == b.slots.len(),
        forall|i: u32| #[trigger] a.occupied(i) <==> b.occupied(i),
        forall|i: u32| #[trigger] a.occupied(i) ==> weight(a.at(i)) == weight(b.at(i)),
    ensures
        over_slots(a, weight, n) == over_slots(b, weight, n),
    decreases n,
{
    if n > 0 {
        counted_alike(a, b, weight, (n - 1) as nat);
        assert(a.occupied((n - 1) as u32) <==> b.occupied((n - 1) as u32));
    }
}

} // verus!
