//! What each operation of the ledger does, record by record and in plain numbers.

use crate::account::{AccountIdx, MirroredBalance};
use crate::contract::{Contract, ContractIdx, OracleStatus};
use crate::ledger::keeps::{
    committed_wf, expired_prefix_bounds, released_prefix_claims, released_prefix_wf, released_wf,
    reserved_wf, same_claim,
};
use crate::ledger::model::LedgerView;
use crate::ledger::{LedgerError, SlabKind};
use crate::quote::{Quote, QuoteIdx};
use crate::request::{ReqIdx, Request};
use crate::reservation::{ResIdx, ResOwner, Reservation};
use crate::slab::{handle_of, inserted_wf, Handle, SlabView};
use crate::types::{Amount, Ts};
use vstd::prelude::*;

verus! {

/// Slot `i` is as it was.
pub open spec fn slot_kept<V>(before: SlabView<V>, after: SlabView<V>, i: u32) -> bool {
    &&& after.occupied(i) == before.occupied(i)
    &&& before.occupied(i) ==> after.at(i) == before.at(i) && after.generation(i)
        == before.generation(i)
}

/// Every slot but `i` is as it was.
pub open spec fn slots_kept_but<V>(before: SlabView<V>, after: SlabView<V>, i: u32) -> bool {
    &&& after.slots.len() == before.slots.len()
    &&& forall|j: u32| j != i ==> #[trigger] slot_kept(before, after, j)
}

/// Every account's entry but `a`'s is as it was.
pub open spec fn accounts_kept_but(v: LedgerView, w: LedgerView, a: int) -> bool {
    &&& w.accounts.len() == v.accounts.len()
    &&& forall|b: int|
        0 <= b < v.accounts.len() && b != a ==> #[trigger] w.accounts[b] == v.accounts[b]
}

/// `owner` resolves as before, with all of its record as it was but for the claim, which is
/// `claim`; and every other quote and request is as it was.
pub open spec fn only_owner_points(
    v: LedgerView,
    w: LedgerView,
    owner: ResOwner,
    claim: Option<ResIdx>,
) -> bool {
    match owner {
        ResOwner::Quote(quote) => {
            &&& w.requests == v.requests
            &&& slots_kept_but(v.quotes, w.quotes, quote.index())
            &&& w.quotes.occupied(quote.index())
            &&& w.quotes.generation(quote.index()) == v.quotes.generation(quote.index())
            &&& w.quotes.at(quote.index()) == (Quote { claim, ..v.quotes.at(quote.index()) })
        },
        ResOwner::Request(request) => {
            &&& w.quotes == v.quotes
            &&& slots_kept_but(v.requests, w.requests, request.index())
            &&& w.requests.occupied(request.index())
            &&& w.requests.generation(request.index()) == v.requests.generation(request.index())
            &&& w.requests.at(request.index()) == (Request {
                claim,
                ..v.requests.at(request.index())
            })
        },
    }
}

/// **When a claim may be made**: its owner is there and holds none, the account is known, and what
/// the account then owes in all is within what the mirror says it has; and there is a slot. Each
/// refusal names the fault.
pub proof fn a_claim_is_admitted_exactly_where_it_is_covered(
    v: LedgerView,
    account: AccountIdx,
    amount: Amount,
    owner: ResOwner,
)
    requires
        v.wf(),
    ensures
        ({
            let refused = v.reserve_refused(account, amount, owner);
            let resolves = match owner {
                ResOwner::Quote(quote) => v.quotes.names(quote),
                ResOwner::Request(request) => v.requests.names(request),
            };
            let holds = match owner {
                ResOwner::Quote(quote) => v.quotes.of(quote).claim is Some,
                ResOwner::Request(request) => v.requests.of(request).claim is Some,
            };
            let entry = v.accounts[account.0 as int];
            let then_owed = entry.reserved.0 + entry.committed.0 + amount.0;
            &&& refused is None <==> {
                &&& resolves
                &&& !holds
                &&& account.0 < v.accounts.len()
                &&& then_owed <= entry.free.0
                &&& v.claims.free.len() > 0
            }
            &&& match refused {
                None => true,
                Some(LedgerError::StaleOwner) => !resolves,
                Some(LedgerError::OwnerAlreadyClaimed) => resolves && holds,
                Some(LedgerError::UnknownAccount) => account.0 >= v.accounts.len(),
                Some(LedgerError::AmountOverflow) => then_owed > u64::MAX,
                Some(LedgerError::InsufficientFree) => then_owed > entry.free.0,
                Some(LedgerError::SlabExhausted { slab }) => slab == SlabKind::Reservation
                    && v.claims.free.len() == 0,
                Some(_) => false,
            }
        }),
{
}

/// **Making a claim adds its amount to what its account has reserved, and nothing else moves**: the
/// claim is in a slot that was free, on that account, for that amount, until that instant and for
/// that owner, and its owner points at it.
pub proof fn a_claim_reserves_exactly_its_amount(
    v: LedgerView,
    account: AccountIdx,
    amount: Amount,
    expires_at: Ts,
    owner: ResOwner,
)
    requires
        v.wf(),
        v.reserve_refused(account, amount, owner) is None,
    ensures
        ({
            let w = v.reserved(account, amount, expires_at, owner);
            let a = account.0 as int;
            let i = v.claims.next_index();
            let claim = w.claims.at(i);
            &&& w.wf()
            &&& !v.claims.occupied(i)
            &&& w.claims.occupied(i)
            &&& w.claims.generation(i) == v.claims.generation(i)
            &&& claim.account == account
            &&& claim.amount == amount
            &&& claim.owner == owner
            &&& claim.expiry() == Some(expires_at)
            &&& claim.list() is None
            &&& slots_kept_but(v.claims, w.claims, i)
            &&& w.accounts[a].reserved.0 == v.accounts[a].reserved.0 + amount.0
            &&& w.accounts[a].committed == v.accounts[a].committed
            &&& w.accounts[a].free == v.accounts[a].free
            &&& accounts_kept_but(v, w, a)
            &&& only_owner_points(v, w, owner, Some(Handle::of(i, v.claims.generation(i))))
            &&& w.contracts == v.contracts
        }),
{
    reserved_wf(v, account, amount, expires_at, owner);
    inserted_wf(v.claims, Reservation::unlinked(account, amount, owner, expires_at));
}

/// **Releasing a claim gives its amount back, and nothing else moves**: the claim is gone for good,
/// and its owner holds none.
pub proof fn a_release_returns_exactly_its_amount(v: LedgerView, claim: ResIdx)
    requires
        v.wf(),
    ensures
        !v.claims.names(claim) ==> v.release_refused(claim) == Some(LedgerError::StaleReservation),
        v.claims.names(claim) && v.claims.of(claim).expiry() is None ==> v.release_refused(claim)
            == Some(LedgerError::ReservationCommitted),
        v.claims.names(claim) && v.claims.of(claim).expiry() is Some ==> {
            let w = v.released(claim.index());
            let was = v.claims.of(claim);
            let a = was.account.0 as int;
            &&& v.release_refused(claim) is None
            &&& w.wf()
            &&& !w.claims.occupied(claim.index())
            &&& !w.claims.names(claim)
            &&& slots_kept_but(v.claims, w.claims, claim.index())
            &&& w.accounts[a].reserved.0 == v.accounts[a].reserved.0 - was.amount.0
            &&& w.accounts[a].committed == v.accounts[a].committed
            &&& w.accounts[a].free == v.accounts[a].free
            &&& accounts_kept_but(v, w, a)
            &&& only_owner_points(v, w, was.owner, None)
            &&& w.contracts == v.contracts
        },
{
    if v.claims.names(claim) && v.claims.of(claim).expiry() is Some {
        released_wf(v, claim.index());
        assert(v.owned(claim.index()));
        assert(v.placed(claim.index()));
    }
}

/// **Committing a claim moves what is kept of it from reserved to committed and returns the rest**:
/// the claim stays, for the same account and owner, with the amount kept, on that request's list
/// and without an expiry.
pub proof fn a_commit_keeps_exactly_its_amount(
    v: LedgerView,
    claim: ResIdx,
    request: ReqIdx,
    keep: Amount,
)
    requires
        v.wf(),
    ensures
        !v.claims.names(claim) ==> v.commit_refused(claim, request) == Some(
            LedgerError::StaleReservation,
        ),
        v.claims.names(claim) && v.claims.of(claim).expiry() is None ==> v.commit_refused(
            claim,
            request,
        ) == Some(LedgerError::ReservationCommitted),
        v.claims.names(claim) && v.claims.of(claim).expiry() is Some && !v.requests.names(request)
            ==> v.commit_refused(claim, request) == Some(LedgerError::StaleRequest),
        v.claims.names(claim) && v.claims.of(claim).expiry() is Some && v.requests.names(request)
            && keep.0 <= v.claims.of(claim).amount.0 ==> {
            let i = claim.index();
            let w = v.committed(i, request, keep);
            let (was, is) = (v.claims.at(i), w.claims.at(i));
            let a = was.account.0 as int;
            &&& v.commit_refused(claim, request) is None
            &&& w.wf()
            &&& w.claims.names(claim)
            &&& is.account == was.account
            &&& is.owner == was.owner
            &&& is.amount == keep
            &&& is.list() == Some(request)
            &&& is.expiry() is None
            &&& slots_kept_but(v.claims, w.claims, i)
            &&& w.accounts[a].reserved.0 == v.accounts[a].reserved.0 - was.amount.0
            &&& w.accounts[a].committed.0 == v.accounts[a].committed.0 + keep.0
            &&& w.accounts[a].free == v.accounts[a].free
            &&& accounts_kept_but(v, w, a)
            &&& w.quotes == v.quotes
            &&& w.requests == v.requests
            &&& w.contracts == v.contracts
            &&& w.lists[request.index() as int].len() == v.lists[request.index() as int].len() + 1
            &&& w.lists[request.index() as int][0] == i
            &&& forall|k: int|
                0 <= k < v.lists[request.index() as int].len()
                    ==> #[trigger] v.lists[request.index() as int][k]
                    == w.lists[request.index() as int][k + 1]
        },
{
    if v.claims.names(claim) && v.claims.of(claim).expiry() is Some && v.requests.names(request)
        && keep.0 <= v.claims.of(claim).amount.0 {
        committed_wf(v, claim.index(), request, keep);
        assert(v.placed(claim.index()));
    }
}

/// Whether normalising `account` at `now` takes the claim in slot `i`: one of that account's, not
/// committed, and expired by then.
pub open spec fn lapses(v: LedgerView, account: AccountIdx, now: Ts, i: u32) -> bool {
    &&& v.claims.occupied(i)
    &&& v.claims.at(i).account == account
    &&& v.claims.at(i).expiry() is Some
    &&& (v.claims.at(i).expiry()->0).0 <= now.0
}

/// **Normalising takes exactly the account's lapsed claims**: each of them is gone, and every other
/// claim, of this account or another, is as it was; so are everybody else's entries, what the
/// account has committed, and what the mirror says it has.
pub proof fn normalising_takes_exactly_the_lapsed(v: LedgerView, account: AccountIdx, now: Ts)
    requires
        v.wf(),
        account.0 < v.accounts.len(),
    ensures
        ({
            let w = v.normalised(account, now);
            let a = account.0 as int;
            &&& w.wf()
            &&& w.claims.slots.len() == v.claims.slots.len()
            &&& forall|i: u32|
                lapses(v, account, now, i) ==> !(#[trigger] w.claims.occupied(i))
            &&& forall|i: u32|
                !lapses(v, account, now, i) ==> #[trigger] slot_kept(v.claims, w.claims, i)
            &&& w.accounts[a].committed == v.accounts[a].committed
            &&& w.accounts[a].free == v.accounts[a].free
            &&& accounts_kept_but(v, w, a)
            &&& w.contracts == v.contracts
        }),
{
    let a = account.0 as int;
    let chain = v.chains[a];
    let n = v.expired_prefix(chain, now);
    expired_prefix_bounds(v, chain, now);
    released_prefix_wf(v, a, n);
    let w = v.normalised(account, now);
    assert(v.chain_ok(a));
    assert forall|i: u32| lapses(v, account, now, i) implies !(
    #[trigger] w.claims.occupied(i)) by {
        assert(v.placed(i));
        let k = chain.index_of(i);
        assert(chain[k] == i);
        if k >= n {
            assert(v.expiry(chain[n as int]) <= v.expiry(chain[k]));
        }
        assert(chain.take(n as int)[k] == i);
        released_prefix_claims(v, a, n, i);
    }
    assert forall|i: u32| !lapses(v, account, now, i) implies #[trigger] slot_kept(
        v.claims,
        w.claims,
        i,
    ) by {
        if chain.take(n as int).contains(i) {
            let k = chain.take(n as int).index_of(i);
            assert(chain[k] == i);
            assert(v.reserved_by(chain[k], a));
        }
        released_prefix_claims(v, a, n, i);
        assert(same_claim(v, w, i));
    }
    assert forall|b: int| 0 <= b < v.accounts.len() && b != a implies #[trigger] w.accounts[b]
        == v.accounts[b] by {
        assert(w.chains[b] == v.chains[b]);
    }
}

/// What the claims in `slots` come to.
pub open spec fn sum_of(v: LedgerView, slots: Seq<u32>) -> int
    decreases slots.len(),
{
    if slots.len() == 0 {
        0
    } else {
        sum_of(v, slots.drop_last()) + v.claims.at(slots.last()).amount.0
    }
}

/// What releasing the first claims of an account's chain takes off what it has reserved.
proof fn releasing_takes_their_sum(v: LedgerView, a: int, n: nat)
    requires
        v.wf(),
        0 <= a < v.accounts.len(),
        n <= v.chains[a].len(),
    ensures
        v.released_prefix(a, n).accounts[a].reserved.0 == v.accounts[a].reserved.0 - sum_of(
            v,
            v.chains[a].take(n as int),
        ),
    decreases n,
{
    if n > 0 {
        let m = (n - 1) as nat;
        let before = v.released_prefix(a, m);
        let chain = v.chains[a];
        releasing_takes_their_sum(v, a, m);
        released_prefix_wf(v, a, m);
        let i = before.chains[a][0];
        assert(chain.skip(m as int)[0] == chain[m as int]);
        assert(before.chain_ok(a));
        assert(before.reserved_by(before.chains[a][0], a));
        assert(v.chain_ok(a));
        if chain.take(m as int).contains(i) {
            let k = chain.take(m as int).index_of(i);
            assert(chain[k] == chain[m as int]);
        }
        released_prefix_claims(v, a, m, i);
        assert(same_claim(v, before, i));
        released_wf(before, i);
        handle_of::<Reservation>(i, before.claims.generation(i));
        a_release_returns_exactly_its_amount(before, before.claim_handle(i));
        assert(chain.take(n as int).drop_last() =~= chain.take(m as int));
        assert(chain.take(n as int).last() == i);
    } else {
        assert(v.chains[a].take(0) =~= Seq::<u32>::empty());
    }
}

/// **Normalising gives back exactly what the lapsed claims held, and counts them**: they are listed,
/// each once, in `gone`.
pub proof fn normalising_gives_back_what_lapsed(v: LedgerView, account: AccountIdx, now: Ts) -> (gone:
    Seq<u32>)
    requires
        v.wf(),
        account.0 < v.accounts.len(),
    ensures
        gone.no_duplicates(),
        forall|i: u32| #[trigger] gone.contains(i) <==> lapses(v, account, now, i),
        gone.len() == v.expired_prefix(v.chains[account.0 as int], now),
        v.normalised(account, now).accounts[account.0 as int].reserved.0
            == v.accounts[account.0 as int].reserved.0 - sum_of(v, gone),
        v.holds_expired(account, now) <==> gone.len() > 0,
{
    let a = account.0 as int;
    let chain = v.chains[a];
    let n = v.expired_prefix(chain, now);
    expired_prefix_bounds(v, chain, now);
    releasing_takes_their_sum(v, a, n);
    let gone = chain.take(n as int);
    assert(v.chain_ok(a));
    assert forall|i: u32| #[trigger] gone.contains(i) <==> lapses(v, account, now, i) by {
        if gone.contains(i) {
            let k = gone.index_of(i);
            assert(gone[k] == chain[k]);
            assert(v.reserved_by(chain[k], a));
        }
        if lapses(v, account, now, i) {
            assert(v.placed(i));
            let k = chain.index_of(i);
            assert(chain[k] == i);
            if k >= n {
                assert(v.expiry(chain[n as int]) <= v.expiry(chain[k]));
            }
            assert(gone[k] == i);
        }
    }
    if gone.len() > 0 {
        assert(v.expiry(chain[0]) <= now.0);
    }
    if v.holds_expired(account, now) {
        let k = choose|k: int| 0 <= k < chain.len() && v.expiry(#[trigger] chain[k]) <= now.0;
        assert(v.expiry(chain[0]) <= v.expiry(chain[k]));
    }
    gone
}

/// **A mirror update sets what its account has, and nothing else.**
pub proof fn a_mirror_update_sets_exactly_what_it_says(
    v: LedgerView,
    account: AccountIdx,
    free: Amount,
)
    requires
        account.0 < v.accounts.len(),
    ensures
        ({
            let w = v.mirrored(account, free);
            let a = account.0 as int;
            &&& w.accounts[a].free == free
            &&& w.accounts[a].reserved == v.accounts[a].reserved
            &&& w.accounts[a].committed == v.accounts[a].committed
            &&& accounts_kept_but(v, w, a)
            &&& w.claims == v.claims
            &&& w.quotes == v.quotes
            &&& w.requests == v.requests
            &&& w.contracts == v.contracts
            &&& w.chains == v.chains
            &&& w.lists == v.lists
        }),
{
}

/// What an account may still claim is what the mirror says it has, less all it owes; nothing where
/// it owes more.
pub proof fn spare_capital_is_what_is_not_owed(entry: MirroredBalance)
    ensures
        entry.reserved.0 + entry.committed.0 <= entry.free.0 ==> entry.spare().0
            + entry.reserved.0 + entry.committed.0 == entry.free.0,
        entry.reserved.0 + entry.committed.0 > entry.free.0 ==> entry.spare().0 == 0,
        entry.covered() <==> entry.reserved.0 + entry.committed.0 <= entry.free.0,
{
}

/// **A contract is registered once, for one date**: a fresh index takes the date, with nothing said
/// of it yet; the same date again changes nothing; another is refused, and so is an index that is
/// not there. No other contract moves.
pub proof fn a_contract_is_registered_for_one_date(
    v: LedgerView,
    contract: ContractIdx,
    event_date: Ts,
)
    ensures
        ({
            let c = contract.0 as int;
            let done = v.registration(contract, event_date);
            if c >= v.contracts.len() {
                done == Err::<LedgerView, LedgerError>(LedgerError::UnknownContract)
            } else if v.contracts[c] is None {
                &&& done is Ok
                &&& done->Ok_0.contracts.len() == v.contracts.len()
                &&& done->Ok_0.contracts[c] == Some(
                    Contract { event_date, oracle_status: OracleStatus::Silent },
                )
                &&& forall|d: int|
                    0 <= d < v.contracts.len() && d != c ==> #[trigger] done->Ok_0.contracts[d]
                        == v.contracts[d]
                &&& done->Ok_0 == (LedgerView { contracts: done->Ok_0.contracts, ..v })
            } else if v.contracts[c]->0.event_date == event_date {
                done == Ok::<LedgerView, LedgerError>(v)
            } else {
                done == Err::<LedgerView, LedgerError>(LedgerError::ContractIdentityChanged)
            }
        }),
{
}

/// **The oracle's word is kept for its contract alone**, and its date stays.
pub proof fn the_oracles_word_is_kept_for_its_contract(
    v: LedgerView,
    contract: ContractIdx,
    status: OracleStatus,
)
    requires
        contract.0 < v.contracts.len(),
        v.contracts[contract.0 as int] is Some,
    ensures
        ({
            let c = contract.0 as int;
            let w = v.oracle_reported(contract, status);
            &&& w.contracts.len() == v.contracts.len()
            &&& w.contracts[c] == Some(
                Contract {
                    event_date: v.contracts[c]->0.event_date,
                    oracle_status: status,
                },
            )
            &&& forall|d: int|
                0 <= d < v.contracts.len() && d != c ==> #[trigger] w.contracts[d]
                    == v.contracts[d]
            &&& w == (LedgerView { contracts: w.contracts, ..v })
        }),
{
}

/// **Opening fills a free slot with the record, and closing frees it for good**: nothing else
/// moves; and neither is closed while it holds capital.
pub proof fn owners_come_and_go_alone(
    v: LedgerView,
    quote_record: Quote,
    request_record: Request,
    quote: QuoteIdx,
    request: ReqIdx,
)
    requires
        v.wf(),
    ensures
        v.quotes.free.len() > 0 ==> {
            let w = v.quote_opened(quote_record);
            let i = v.quotes.next_index();
            &&& !v.quotes.occupied(i)
            &&& w.quotes.occupied(i)
            &&& w.quotes.at(i) == quote_record
            &&& w.quotes.generation(i) == v.quotes.generation(i)
            &&& slots_kept_but(v.quotes, w.quotes, i)
            &&& w == (LedgerView { quotes: w.quotes, ..v })
        },
        v.requests.free.len() > 0 ==> {
            let w = v.request_opened(request_record);
            let i = v.requests.next_index();
            &&& !v.requests.occupied(i)
            &&& w.requests.occupied(i)
            &&& w.requests.at(i) == request_record
            &&& w.requests.generation(i) == v.requests.generation(i)
            &&& slots_kept_but(v.requests, w.requests, i)
            &&& w == (LedgerView { requests: w.requests, ..v })
        },
        !v.quotes.names(quote) ==> v.close_quote_refused(quote) == Some(LedgerError::StaleOwner),
        v.quotes.names(quote) && v.quotes.of(quote).claim is Some ==> v.close_quote_refused(quote)
            == Some(LedgerError::OwnerStillClaimed),
        v.quotes.names(quote) && v.quotes.of(quote).claim is None ==> {
            let w = v.quote_closed(quote);
            &&& v.close_quote_refused(quote) is None
            &&& !w.quotes.occupied(quote.index())
            &&& slots_kept_but(v.quotes, w.quotes, quote.index())
            &&& w == (LedgerView { quotes: w.quotes, ..v })
        },
        !v.requests.names(request) ==> v.close_request_refused(request) == Some(
            LedgerError::StaleRequest,
        ),
        v.requests.names(request) && (v.requests.of(request).claim is Some || exists|i: u32|
            v.claims.occupied(i) && #[trigger] v.claims.at(i).list() == Some(request))
            ==> v.close_request_refused(request) == Some(LedgerError::OwnerStillClaimed),
        v.requests.names(request) && v.close_request_refused(request) is None ==> {
            let w = v.request_closed(request);
            &&& v.requests.of(request).claim is None
            &&& !w.requests.occupied(request.index())
            &&& slots_kept_but(v.requests, w.requests, request.index())
            &&& w == (LedgerView { requests: w.requests, ..v })
        },
{
    if v.quotes.free.len() > 0 {
        inserted_wf(v.quotes, quote_record);
    }
    if v.requests.free.len() > 0 {
        inserted_wf(v.requests, request_record);
    }
    if exists|i: u32| v.claims.occupied(i) && #[trigger] v.claims.at(i).list() == Some(request) {
        let i = choose|i: u32|
            v.claims.occupied(i) && #[trigger] v.claims.at(i).list() == Some(request);
        assert(v.placed(i));
    }
}

/// A fresh ledger: nobody has, owes or claims anything, and nothing is registered or open.
pub proof fn a_fresh_ledger_is_empty(
    accounts: u32,
    contracts: u32,
    claims: u32,
    requests: u32,
    quotes: u32,
)
    ensures
        ({
            let v = LedgerView::empty(accounts, contracts, claims, requests, quotes);
            &&& v.accounts.len() == accounts
            &&& v.contracts.len() == contracts
            &&& v.claims.slots.len() == claims
            &&& v.requests.slots.len() == requests
            &&& v.quotes.slots.len() == quotes
            &&& forall|a: int|
                0 <= a < accounts ==> {
                    let entry = #[trigger] v.accounts[a];
                    entry.free.0 == 0 && entry.reserved.0 == 0 && entry.committed.0 == 0
                }
            &&& forall|c: int| 0 <= c < contracts ==> (#[trigger] v.contracts[c]) is None
            &&& forall|i: u32| !(#[trigger] v.claims.occupied(i))
            &&& forall|i: u32| !(#[trigger] v.requests.occupied(i))
            &&& forall|i: u32| !(#[trigger] v.quotes.occupied(i))
        }),
{
}

} // verus!
