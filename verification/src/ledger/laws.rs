//! What the ledger promises across operations.

use crate::account::AccountIdx;
use crate::ledger::keeps::{
    committed_wf, discharged_one_wf, discharged_prefix_wf, expired_prefix_bounds, expired_prefix_is,
    index_of_entry, released_prefix_claims, released_prefix_wf, released_wf,
    reserved_claims_are_apart, reserved_wf, same_claim, slot_for_splits, without_entry,
};
use crate::ledger::model::LedgerView;
use crate::quote::Quote;
use crate::request::{ReqIdx, Request};
use crate::reservation::{ResOwner, Reservation};
use crate::slab::{handle_of, inserted_wf};
use crate::types::{Amount, Ts};
use vstd::prelude::*;

verus! {

/// No balance moved, and no account has more claims against it.
pub open spec fn claims_shrink(v: LedgerView, w: LedgerView) -> bool {
    &&& w.accounts.len() == v.accounts.len()
    &&& forall|a: int|
        0 <= a < v.accounts.len() ==> {
            &&& (#[trigger] w.accounts[a]).free == v.accounts[a].free
            &&& w.accounts[a].reserved.0 + w.accounts[a].committed.0 <= v.accounts[a].reserved.0
                + v.accounts[a].committed.0
        }
}

/// Shrinking claims shrink in steps.
pub proof fn shrinking_composes(u: LedgerView, v: LedgerView, w: LedgerView)
    requires
        claims_shrink(u, v),
        claims_shrink(v, w),
    ensures
        claims_shrink(u, w),
{
    assert forall|a: int| 0 <= a < u.accounts.len() implies {
        &&& (#[trigger] w.accounts[a]).free == u.accounts[a].free
        &&& w.accounts[a].reserved.0 + w.accounts[a].committed.0 <= u.accounts[a].reserved.0
            + u.accounts[a].committed.0
    } by {
        assert(v.accounts[a].free == u.accounts[a].free);
    }
}

/// Fewer claims against the same balances are still covered.
pub proof fn shrinking_keeps_coverage(v: LedgerView, w: LedgerView)
    requires
        v.covered(),
        claims_shrink(v, w),
    ensures
        w.covered(),
{
    assert forall|a: int| 0 <= a < w.accounts.len() implies (#[trigger] w.accounts[a]).covered() by {
        assert(v.accounts[a].covered());
    }
}

/// Releasing a claim shrinks the claims against its account.
pub proof fn released_shrinks(v: LedgerView, i: u32)
    requires
        v.wf(),
        v.claims.occupied(i),
        v.claims.at(i).links is Reserved,
    ensures
        claims_shrink(v, v.released(i)),
{
    released_wf(v, i);
}

/// Committing a claim moves it from one total to the other, and returns the remainder.
pub proof fn committed_shrinks(v: LedgerView, i: u32, request: ReqIdx, keep: Amount)
    requires
        v.wf(),
        v.claims.occupied(i),
        v.claims.at(i).links is Reserved,
        v.requests.names(request),
        keep.0 <= v.claims.at(i).amount.0,
    ensures
        claims_shrink(v, v.committed(i, request, keep)),
{
    committed_wf(v, i, request, keep);
}

/// Normalising an account shrinks the claims against it.
pub proof fn normalised_shrinks(v: LedgerView, account: AccountIdx, now: Ts)
    requires
        v.wf(),
        account.0 < v.accounts.len(),
    ensures
        claims_shrink(v, v.normalised(account, now)),
{
    let a = account.0 as int;
    expired_prefix_bounds(v, v.chains[a], now);
    released_prefix_shrinks(v, a, v.expired_prefix(v.chains[a], now));
}

proof fn released_prefix_shrinks(v: LedgerView, a: int, n: nat)
    requires
        v.wf(),
        0 <= a < v.accounts.len(),
        n <= v.chains[a].len(),
    ensures
        claims_shrink(v, v.released_prefix(a, n)),
    decreases n,
{
    if n > 0 {
        let m = (n - 1) as nat;
        released_prefix_shrinks(v, a, m);
        released_prefix_wf(v, a, m);
        let u = v.released_prefix(a, m);
        assert(u.chain_ok(a));
        assert(u.reserved_by(u.chains[a][0], a));
        released_shrinks(u, u.chains[a][0]);
        shrinking_composes(v, u, v.released_prefix(a, n));
    }
}

/// Discharging what is committed to a request shrinks the claims against its parties.
pub proof fn discharged_shrinks(v: LedgerView, request: ReqIdx)
    requires
        v.wf(),
        v.requests.names(request),
    ensures
        claims_shrink(v, v.discharged(request)),
{
    discharged_prefix_shrinks(v, request, v.lists[request.index() as int].len());
}

proof fn discharged_prefix_shrinks(v: LedgerView, request: ReqIdx, n: nat)
    requires
        v.wf(),
        v.requests.names(request),
        n <= v.lists[request.index() as int].len(),
    ensures
        claims_shrink(v, v.discharged_prefix(request.index() as int, n)),
    decreases n,
{
    if n > 0 {
        let m = (n - 1) as nat;
        let r = request.index() as int;
        discharged_prefix_shrinks(v, request, m);
        discharged_prefix_wf(v, request, m);
        let u = v.discharged_prefix(r, m);
        discharged_one_wf(u, r);
        let w = u.discharged_one(r);
        assert(claims_shrink(u, w));
        shrinking_composes(v, u, w);
    }
}

/// **Claim coverage cannot be broken by a caller.** Where every account's mirrored balance covers
/// the claims against it, it still does after any claim is reserved, released or committed, any
/// account normalised, and anything committed to a request discharged.
pub proof fn coverage_is_kept(
    v: LedgerView,
    account: AccountIdx,
    amount: Amount,
    expires_at: Ts,
    owner: ResOwner,
    i: u32,
    request: ReqIdx,
    keep: Amount,
    now: Ts,
)
    requires
        v.wf(),
        v.covered(),
    ensures
        v.reserve_refused(account, amount, owner) is None ==> v.reserved(
            account,
            amount,
            expires_at,
            owner,
        ).covered(),
        v.claims.occupied(i) && v.claims.at(i).links is Reserved ==> v.released(i).covered(),
        v.claims.occupied(i) && v.claims.at(i).links is Reserved && v.requests.names(request)
            && keep.0 <= v.claims.at(i).amount.0 ==> v.committed(i, request, keep).covered(),
        account.0 < v.accounts.len() ==> v.normalised(account, now).covered(),
        v.requests.names(request) ==> v.discharged(request).covered(),
{
    if v.reserve_refused(account, amount, owner) is None {
        let w = v.reserved(account, amount, expires_at, owner);
        assert forall|a: int| 0 <= a < w.accounts.len() implies (
        #[trigger] w.accounts[a]).covered() by {
            assert(v.accounts[a].covered());
        }
    }
    if v.claims.occupied(i) && v.claims.at(i).links is Reserved {
        released_shrinks(v, i);
        shrinking_keeps_coverage(v, v.released(i));
        if v.requests.names(request) && keep.0 <= v.claims.at(i).amount.0 {
            committed_shrinks(v, i, request, keep);
            shrinking_keeps_coverage(v, v.committed(i, request, keep));
        }
    }
    if account.0 < v.accounts.len() {
        normalised_shrinks(v, account, now);
        shrinking_keeps_coverage(v, v.normalised(account, now));
    }
    if v.requests.names(request) {
        discharged_shrinks(v, request);
        shrinking_keeps_coverage(v, v.discharged(request));
    }
}

/// **Releasing a claim undoes reserving it**: everything is as it was, but for the generation of
/// the slot the claim was in.
pub proof fn release_undoes_reserve(
    v: LedgerView,
    account: AccountIdx,
    amount: Amount,
    expires_at: Ts,
    owner: ResOwner,
)
    requires
        v.wf(),
        v.reserve_refused(account, amount, owner) is None,
    ensures
        ({
            let claim = v.claims.next_handle::<Reservation>();
            let held = v.reserved(account, amount, expires_at, owner);
            let after = held.released(claim.index());
            &&& held.release_refused(claim) is None
            &&& after == (LedgerView {
                claims: held.claims.removed(claim.index()),
                ..v
            })
        }),
{
    broadcast use handle_of;

    let a = account.0 as int;
    let i = v.claims.next_index();
    let record = Reservation::unlinked(account, amount, owner, expires_at);
    inserted_wf(v.claims, record);
    reserved_wf(v, account, amount, expires_at, owner);
    let held = v.reserved(account, amount, expires_at, owner);
    let after = held.released(i);
    let chain = v.chains[a];
    let at = v.slot_for(chain, expires_at);
    assert(v.chain_ok(a));
    slot_for_splits(v, chain, expires_at);
    assert(held.chain_ok(a));
    let longer = held.chains[a];
    assert(longer == chain.insert(at, i));
    assert(longer[at] == i);
    index_of_entry(longer, at);
    assert(longer.remove(at) =~= chain);
    assert(after.chains =~= v.chains);
    assert(after.accounts =~= v.accounts);
    match owner {
        ResOwner::Quote(quote) => {
            assert(after.quotes =~= v.quotes);
        },
        ResOwner::Request(request) => {
            assert(after.requests =~= v.requests);
        },
    }
    assert(after.claims == held.claims.removed(i));
}

/// **Normalising leaves nothing dead and reaches nothing committed.** Afterwards no claim on the
/// account's chain is dead at that instant; every committed list, every committed total and every
/// other account's chain is as it was; and normalising again changes nothing.
pub proof fn normalising_is_complete(v: LedgerView, account: AccountIdx, now: Ts)
    requires
        v.wf(),
        account.0 < v.accounts.len(),
    ensures
        ({
            let w = v.normalised(account, now);
            let a = account.0 as int;
            &&& !w.holds_expired(account, now)
            &&& w.lists == v.lists
            &&& forall|b: int|
                0 <= b < v.accounts.len() ==> (#[trigger] w.accounts[b]).committed
                    == v.accounts[b].committed
            &&& forall|b: int|
                0 <= b < v.accounts.len() && b != a ==> #[trigger] w.chains[b] == v.chains[b]
            &&& forall|i: u32|
                v.claims.occupied(i) && v.claims.at(i).links is Committed
                    ==> #[trigger] w.claims.occupied(i) && w.claims.at(i) == v.claims.at(i)
            &&& w.normalised(account, now) == w
        }),
{
    let a = account.0 as int;
    let chain = v.chains[a];
    let n = v.expired_prefix(chain, now);
    expired_prefix_bounds(v, chain, now);
    released_prefix_wf(v, a, n);
    let w = v.normalised(account, now);
    let rest = chain.skip(n as int);
    assert(v.chain_ok(a));
    assert forall|k: int| 0 <= k < rest.len() implies w.expiry(#[trigger] rest[k]) > now.0 by {
        let i = rest[k];
        assert(i == chain[n + k]);
        released_prefix_claims(v, a, n, i);
        if chain.take(n as int).contains(i) {
            let j = chain.take(n as int).index_of(i);
            assert(chain[j] == i);
        }
        assert(same_claim(v, w, i));
        assert(v.reserved_by(chain[n + k], a));
        assert(v.expiry(chain[n as int]) <= v.expiry(chain[n + k]));
    }
    expired_prefix_is(w, rest, now, 0);
    assert forall|b: int| 0 <= b < v.accounts.len() implies (#[trigger] w.accounts[b]).committed
        == v.accounts[b].committed by {
        if b != a {
            assert(w.chains[b] == v.chains[b]);
        }
    }
    assert forall|i: u32|
        v.claims.occupied(i) && v.claims.at(i).links is Committed implies
        #[trigger] w.claims.occupied(i) && w.claims.at(i) == v.claims.at(i) by {
        released_prefix_claims(v, a, n, i);
        if chain.take(n as int).contains(i) {
            let j = chain.take(n as int).index_of(i);
            assert(chain[j] == i);
            assert(v.reserved_by(chain[j], a));
        }
    }
}

/// **Committing moves a claim between chains in one step**: off its account's expiry chain, onto
/// its request's list, without an expiry, and out of reach of any release.
pub proof fn committing_moves_a_claim(v: LedgerView, i: u32, request: ReqIdx, keep: Amount)
    requires
        v.wf(),
        v.claims.occupied(i),
        v.claims.at(i).links is Reserved,
        v.requests.names(request),
        keep.0 <= v.claims.at(i).amount.0,
    ensures
        ({
            let w = v.committed(i, request, keep);
            let a = v.claims.at(i).account.0 as int;
            &&& w.wf()
            &&& !w.chains[a].contains(i)
            &&& w.lists[request.index() as int].contains(i)
            &&& w.claims.at(i).expiry() is None
            &&& w.release_refused(w.claim_handle(i)) == Some(
                crate::ledger::LedgerError::ReservationCommitted,
            )
            &&& w.accounts[a].reserved.0 == v.accounts[a].reserved.0 - v.claims.at(i).amount.0
            &&& w.accounts[a].committed.0 == v.accounts[a].committed.0 + keep.0
        }),
{
    broadcast use handle_of;

    committed_wf(v, i, request, keep);
    assert(v.placed(i));
    let a = v.claims.at(i).account.0 as int;
    assert(v.reserved_by(i, a));
    reserved_claims_are_apart(v, i, a);
    assert(v.chain_ok(a));
    without_entry(v.chains[a], i);
    let w = v.committed(i, request, keep);
    let list = w.lists[request.index() as int];
    assert(list[0] == i);
}

/// **What coherence means**: every uncommitted claim is owned by a standing quote or an open
/// request; and every committed one by a consumed quote of the request whose list it is on, or by
/// that request itself, and that request is settling.
pub proof fn coherence_is(v: LedgerView)
    ensures
        v.coherent() <==> forall|i: u32| #[trigger] v.claims.occupied(i) ==> state_agrees(v, i),
{
    if v.coherent() {
        assert forall|i: u32| #[trigger] v.claims.occupied(i) implies state_agrees(v, i) by {
            assert(v.incoherence(i) is None);
        }
    }
    if forall|i: u32| #[trigger] v.claims.occupied(i) ==> state_agrees(v, i) {
        assert forall|i: u32| #[trigger] v.incoherence(i) is None by {
            if v.claims.occupied(i) {
                assert(state_agrees(v, i));
            }
        }
    }
}

/// The state of the claim in slot `i` agrees with its owner's.
pub open spec fn state_agrees(v: LedgerView, i: u32) -> bool {
    let claim = v.claims.at(i);
    match claim.list() {
        None => match claim.owner {
            ResOwner::Quote(quote) => v.quotes.names(quote) && v.quotes.of(quote).state is Active,
            ResOwner::Request(request) => v.requests.names(request) && v.requests.of(
                request,
            ).state is Open,
        },
        Some(list) => {
            &&& v.requests.names(list)
            &&& v.requests.of(list).state is Settling
            &&& match claim.owner {
                ResOwner::Quote(quote) => v.quotes.names(quote) && v.quotes.of(quote).state
                    is Consumed && v.quotes.of(quote).request == Some(list),
                ResOwner::Request(request) => request == list,
            }
        },
    }
}

} // verus!
