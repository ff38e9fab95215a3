//! What whoever calls the ledger is promised, whatever it held before, in plain numbers.

use crate::account::AccountIdx;
use crate::ledger::checks::InvariantViolation;
use crate::ledger::effects::{
    a_claim_is_admitted_exactly_where_it_is_covered, a_claim_reserves_exactly_its_amount,
    a_commit_keeps_exactly_its_amount, a_release_returns_exactly_its_amount, accounts_kept_but,
    lapses, normalising_gives_back_what_lapsed, normalising_takes_exactly_the_lapsed,
    only_owner_points, slot_kept, slots_kept_but,
};
use crate::ledger::model::LedgerView;
use crate::ledger::{Ledger, LedgerError};
use crate::quote::QuoteState;
use crate::request::{ReqIdx, RequestState};
use crate::reservation::{ResIdx, ResOwner};
use crate::slab::{handle_extensional, handle_of};
use crate::types::{Amount, Ts};
use vstd::prelude::*;

verus! {

/// `account` may claim `amount` for `owner`: the owner is there and holds no claim, the account is
/// there and has as much beyond what it owes, and a slot is free.
pub open spec fn may_claim(
    v: LedgerView,
    account: AccountIdx,
    amount: Amount,
    owner: ResOwner,
) -> bool {
    &&& match owner {
        ResOwner::Quote(quote) => v.quotes.names(quote) && v.quotes.of(quote).claim is None,
        ResOwner::Request(request) => v.requests.names(request) && v.requests.of(
            request,
        ).claim is None,
    }
    &&& account.0 < v.accounts.len()
    &&& v.accounts[account.0 as int].reserved.0 + v.accounts[account.0 as int].committed.0
        + amount.0 <= v.accounts[account.0 as int].free.0
    &&& v.claims.free.len() > 0
}

/// `claim` is new: it holds `amount` of `account`'s for `owner` until `expires_at`, its account has
/// that much more reserved, and nothing else has moved.
pub open spec fn only_claims(
    v: LedgerView,
    w: LedgerView,
    claim: ResIdx,
    account: AccountIdx,
    amount: Amount,
    expires_at: Ts,
    owner: ResOwner,
) -> bool {
    let a = account.0 as int;
    let made = w.claims.of(claim);
    &&& !v.claims.occupied(claim.index())
    &&& w.claims.names(claim)
    &&& made.account == account
    &&& made.amount == amount
    &&& made.owner == owner
    &&& made.expiry() == Some(expires_at)
    &&& slots_kept_but(v.claims, w.claims, claim.index())
    &&& w.accounts[a].reserved.0 == v.accounts[a].reserved.0 + amount.0
    &&& w.accounts[a].committed == v.accounts[a].committed
    &&& w.accounts[a].free == v.accounts[a].free
    &&& accounts_kept_but(v, w, a)
    &&& only_owner_points(v, w, owner, Some(claim))
    &&& w.contracts == v.contracts
}

/// **Reserving claims exactly what it is asked to**, where it may, and otherwise nothing.
pub proof fn reserving_only_claims(
    account: AccountIdx,
    amount: Amount,
    expires_at: Ts,
    owner: ResOwner,
    r: Result<ResIdx, LedgerError>,
)
    ensures
        forall|ledger: &mut Ledger| #[trigger]
            call_ensures(Ledger::reserve, (ledger, account, amount, expires_at, owner), r) && (
            *ledger).wf() ==> {
                let (v, w) = ((*ledger)@, final(ledger)@);
                &&& r is Ok <==> may_claim(v, account, amount, owner)
                &&& r is Ok ==> only_claims(v, w, r->Ok_0, account, amount, expires_at, owner)
                &&& r is Err ==> w == v
            },
{
    broadcast use handle_of;

    assert forall|ledger: &mut Ledger| #[trigger]
        call_ensures(Ledger::reserve, (ledger, account, amount, expires_at, owner), r) && (
        *ledger).wf() implies {
        let (v, w) = ((*ledger)@, final(ledger)@);
        &&& r is Ok <==> may_claim(v, account, amount, owner)
        &&& r is Ok ==> only_claims(v, w, r->Ok_0, account, amount, expires_at, owner)
        &&& r is Err ==> w == v
    } by {
        (*ledger).wf_model();
        a_claim_is_admitted_exactly_where_it_is_covered((*ledger)@, account, amount, owner);
        if r is Ok {
            a_claim_reserves_exactly_its_amount((*ledger)@, account, amount, expires_at, owner);
        }
    }
}

/// `claim` is gone, its account has its amount less reserved, its owner holds none, and nothing else
/// has moved.
pub open spec fn only_releases(v: LedgerView, w: LedgerView, claim: ResIdx) -> bool {
    let was = v.claims.of(claim);
    let a = was.account.0 as int;
    &&& !w.claims.occupied(claim.index())
    &&& slots_kept_but(v.claims, w.claims, claim.index())
    &&& w.accounts[a].reserved.0 == v.accounts[a].reserved.0 - was.amount.0
    &&& w.accounts[a].committed == v.accounts[a].committed
    &&& w.accounts[a].free == v.accounts[a].free
    &&& accounts_kept_but(v, w, a)
    &&& only_owner_points(v, w, was.owner, None)
    &&& w.contracts == v.contracts
}

/// **Releasing gives a claim's amount back and says how much that was**, where the claim is there and
/// not committed; otherwise nothing moves.
pub proof fn releasing_only_gives_back(claim: ResIdx, r: Result<Amount, LedgerError>)
    ensures
        forall|ledger: &mut Ledger| #[trigger]
            call_ensures(Ledger::release, (ledger, claim), r) && (*ledger).wf() ==> {
                let (v, w) = ((*ledger)@, final(ledger)@);
                &&& r is Ok <==> v.claims.names(claim) && v.claims.of(claim).expiry() is Some
                &&& r is Ok ==> r->Ok_0 == v.claims.of(claim).amount && only_releases(v, w, claim)
                &&& r is Err ==> w == v
            },
{
    assert forall|ledger: &mut Ledger| #[trigger]
        call_ensures(Ledger::release, (ledger, claim), r) && (*ledger).wf() implies {
        let (v, w) = ((*ledger)@, final(ledger)@);
        &&& r is Ok <==> v.claims.names(claim) && v.claims.of(claim).expiry() is Some
        &&& r is Ok ==> r->Ok_0 == v.claims.of(claim).amount && only_releases(v, w, claim)
        &&& r is Err ==> w == v
    } by {
        (*ledger).wf_model();
        a_release_returns_exactly_its_amount((*ledger)@, claim);
    }
}

/// `claim` is committed to `request`, whole: its account has its amount less reserved and as much more
/// committed, and nothing else has moved.
pub open spec fn only_commits(v: LedgerView, w: LedgerView, claim: ResIdx, request: ReqIdx) -> bool {
    let (was, is) = (v.claims.of(claim), w.claims.of(claim));
    let a = was.account.0 as int;
    &&& w.claims.names(claim)
    &&& is.account == was.account
    &&& is.owner == was.owner
    &&& is.amount == was.amount
    &&& is.list() == Some(request)
    &&& is.expiry() is None
    &&& slots_kept_but(v.claims, w.claims, claim.index())
    &&& w.accounts[a].reserved.0 == v.accounts[a].reserved.0 - was.amount.0
    &&& w.accounts[a].committed.0 == v.accounts[a].committed.0 + was.amount.0
    &&& w.accounts[a].free == v.accounts[a].free
    &&& accounts_kept_but(v, w, a)
    &&& w.quotes == v.quotes
    &&& w.requests == v.requests
    &&& w.contracts == v.contracts
}

/// **Committing moves a claim whole from reserved to committed**, where the claim is there and not
/// committed, and the request is there; otherwise nothing moves.
pub proof fn committing_only_commits(claim: ResIdx, request: ReqIdx, r: Result<(), LedgerError>)
    ensures
        forall|ledger: &mut Ledger| #[trigger]
            call_ensures(Ledger::commit, (ledger, claim, request), r) && (*ledger).wf() ==> {
                let (v, w) = ((*ledger)@, final(ledger)@);
                &&& r is Ok <==> v.claims.names(claim) && v.claims.of(claim).expiry() is Some
                    && v.requests.names(request)
                &&& r is Ok ==> only_commits(v, w, claim, request)
                &&& r is Err ==> w == v
            },
{
    assert forall|ledger: &mut Ledger| #[trigger]
        call_ensures(Ledger::commit, (ledger, claim, request), r) && (*ledger).wf() implies {
        let (v, w) = ((*ledger)@, final(ledger)@);
        &&& r is Ok <==> v.claims.names(claim) && v.claims.of(claim).expiry() is Some
            && v.requests.names(request)
        &&& r is Ok ==> only_commits(v, w, claim, request)
        &&& r is Err ==> w == v
    } by {
        (*ledger).wf_model();
        let v = (*ledger)@;
        a_commit_keeps_exactly_its_amount(v, claim, request, v.claims.of(claim).amount);
    }
}

/// `account`'s lapsed claims are gone, and every other claim is as it was; nobody's committed capital
/// or mirror has moved, and nobody else's reserved.
pub open spec fn only_lapses(v: LedgerView, w: LedgerView, account: AccountIdx, now: Ts) -> bool {
    let a = account.0 as int;
    &&& forall|i: u32| lapses(v, account, now, i) ==> !(#[trigger] w.claims.occupied(i))
    &&& forall|i: u32| !lapses(v, account, now, i) ==> #[trigger] slot_kept(v.claims, w.claims, i)
    &&& w.accounts[a].committed == v.accounts[a].committed
    &&& w.accounts[a].free == v.accounts[a].free
    &&& accounts_kept_but(v, w, a)
    &&& w.contracts == v.contracts
}

/// **Asking what an account has free counts nothing that has lapsed**: its lapsed claims are released
/// first, and what is free is what the mirror says less what it then owes, or nothing where it owes
/// more. An account that is not there is refused.
pub proof fn what_is_free_counts_nothing_lapsed(
    account: AccountIdx,
    now: Ts,
    r: Result<Amount, LedgerError>,
)
    ensures
        forall|ledger: &mut Ledger| #[trigger]
            call_ensures(Ledger::free, (ledger, account, now), r) && (*ledger).wf() ==> {
                let (v, w) = ((*ledger)@, final(ledger)@);
                let entry = w.accounts[account.0 as int];
                &&& r is Ok <==> account.0 < v.accounts.len()
                &&& r is Ok ==> {
                    &&& only_lapses(v, w, account, now)
                    &&& r->Ok_0.0 == if entry.reserved.0 + entry.committed.0 <= entry.free.0 {
                        entry.free.0 - entry.reserved.0 - entry.committed.0
                    } else {
                        0
                    }
                }
                &&& r is Err ==> w == v
            },
{
    assert forall|ledger: &mut Ledger| #[trigger]
        call_ensures(Ledger::free, (ledger, account, now), r) && (*ledger).wf() implies {
        let (v, w) = ((*ledger)@, final(ledger)@);
        let entry = w.accounts[account.0 as int];
        &&& r is Ok <==> account.0 < v.accounts.len()
        &&& r is Ok ==> {
            &&& only_lapses(v, w, account, now)
            &&& r->Ok_0.0 == if entry.reserved.0 + entry.committed.0 <= entry.free.0 {
                entry.free.0 - entry.reserved.0 - entry.committed.0
            } else {
                0
            }
        }
        &&& r is Err ==> w == v
    } by {
        (*ledger).wf_model();
        if account.0 < (*ledger)@.accounts.len() {
            normalising_takes_exactly_the_lapsed((*ledger)@, account, now);
        }
    }
}

/// **Releasing what has expired releases exactly the lapsed claims of one account.**
pub proof fn releasing_the_expired_only_lapses(
    account: AccountIdx,
    now: Ts,
    r: Result<u32, LedgerError>,
)
    ensures
        forall|ledger: &mut Ledger| #[trigger]
            call_ensures(Ledger::release_expired, (ledger, account, now), r) && (
            *ledger).wf() ==> {
                let (v, w) = ((*ledger)@, final(ledger)@);
                &&& r is Ok <==> account.0 < v.accounts.len()
                &&& r is Ok ==> only_lapses(v, w, account, now)
                &&& r is Ok ==> (r->Ok_0 > 0 <==> exists|i: u32| #[trigger]
                    lapses(v, account, now, i))
                &&& r is Err ==> w == v
            },
{
    assert forall|ledger: &mut Ledger| #[trigger]
        call_ensures(Ledger::release_expired, (ledger, account, now), r) && (
        *ledger).wf() implies {
        let (v, w) = ((*ledger)@, final(ledger)@);
        &&& r is Ok <==> account.0 < v.accounts.len()
        &&& r is Ok ==> only_lapses(v, w, account, now)
        &&& r is Ok ==> (r->Ok_0 > 0 <==> exists|i: u32| #[trigger] lapses(v, account, now, i))
        &&& r is Err ==> w == v
    } by {
        (*ledger).wf_model();
        let v = (*ledger)@;
        if account.0 < v.accounts.len() {
            normalising_takes_exactly_the_lapsed(v, account, now);
            let gone = normalising_gives_back_what_lapsed(v, account, now);
            if gone.len() > 0 {
                assert(gone.contains(gone[0]));
            }
            if exists|i: u32| #[trigger] lapses(v, account, now, i) {
                let i = choose|i: u32| #[trigger] lapses(v, account, now, i);
                assert(gone.contains(i));
            }
        }
    }
}

/// **Coverage is what the mirror says against what is owed, and normal is what holds nothing lapsed.**
pub proof fn what_is_checked_of_an_account(
    ledger: &Ledger,
    account: AccountIdx,
    now: Ts,
    covered: Result<(), InvariantViolation>,
    normal: Result<(), InvariantViolation>,
)
    requires
        ledger.wf(),
        account.0 < ledger@.accounts.len(),
        call_ensures(Ledger::check_claim_coverage_for, (ledger, account), covered),
        call_ensures(Ledger::check_normalised, (ledger, account, now), normal),
    ensures
        ({
            let entry = ledger@.accounts[account.0 as int];
            &&& covered is Ok <==> entry.reserved.0 + entry.committed.0 <= entry.free.0
            &&& normal is Ok <==> forall|i: u32| !#[trigger] lapses(ledger@, account, now, i)
        }),
{
    ledger.wf_model();
    let gone = normalising_gives_back_what_lapsed(ledger@, account, now);
    if gone.len() > 0 {
        assert(gone.contains(gone[0]));
    }
    assert forall|i: u32| gone.len() == 0 implies !#[trigger] lapses(ledger@, account, now, i) by {
        assert(!gone.contains(i));
    }
}

/// `claim` names the claim in slot `i`.
pub open spec fn in_slot(v: LedgerView, claim: ResIdx, i: u32) -> bool {
    claim.index() == i && claim.generation() == v.claims.generation(i)
}

/// Whether `owner` is there, and whether it holds `claim`.
pub open spec fn is_there(v: LedgerView, owner: ResOwner) -> bool {
    match owner {
        ResOwner::Quote(quote) => v.quotes.names(quote),
        ResOwner::Request(request) => v.requests.names(request),
    }
}

/// The claim `owner` points at.
pub open spec fn points_at(v: LedgerView, owner: ResOwner) -> Option<ResIdx> {
    match owner {
        ResOwner::Quote(quote) => v.quotes.of(quote).claim,
        ResOwner::Request(request) => v.requests.of(request).claim,
    }
}

/// **What is wrong between a claim and its owner is told as what it is**: an owner that is not there,
/// or one that points elsewhere; and a quote or a request whose claim is not there or another's.
pub proof fn a_broken_bond_is_told_as_it_is(v: LedgerView, i: u32)
    ensures
        match v.owner_fault(i) {
            None => v.claims.occupied(i) ==> is_there(v, v.claims.at(i).owner) && points_at(
                v,
                v.claims.at(i).owner,
            ) is Some && in_slot(v, points_at(v, v.claims.at(i).owner)->0, i),
            Some(InvariantViolation::OwnerDoesNotResolve(claim)) => {
                &&& v.claims.occupied(i)
                &&& in_slot(v, claim, i)
                &&& !is_there(v, v.claims.at(i).owner)
            },
            Some(InvariantViolation::OwnerDoesNotPointBack(claim)) => {
                &&& v.claims.occupied(i)
                &&& in_slot(v, claim, i)
                &&& is_there(v, v.claims.at(i).owner)
                &&& points_at(v, v.claims.at(i).owner) != Some(claim)
            },
            Some(_) => false,
        },
        match v.quote_fault(i) {
            None => v.quotes.occupied(i) && v.quotes.at(i).claim is Some ==> v.claims.names(
                v.quotes.at(i).claim->0,
            ) && v.claims.of(v.quotes.at(i).claim->0).owner is Quote,
            Some(InvariantViolation::OwnerDoesNotPointBack(claim)) => {
                &&& v.quotes.occupied(i)
                &&& v.quotes.at(i).claim == Some(claim)
                &&& !v.claims.names(claim) || match v.claims.of(claim).owner {
                    ResOwner::Quote(quote) => quote.index() != i || quote.generation()
                        != v.quotes.generation(i),
                    ResOwner::Request(_) => true,
                }
            },
            Some(_) => false,
        },
        match v.request_fault(i) {
            None => v.requests.occupied(i) && v.requests.at(i).claim is Some ==> v.claims.names(
                v.requests.at(i).claim->0,
            ) && v.claims.of(v.requests.at(i).claim->0).owner is Request,
            Some(InvariantViolation::OwnerDoesNotPointBack(claim)) => {
                &&& v.requests.occupied(i)
                &&& v.requests.at(i).claim == Some(claim)
                &&& !v.claims.names(claim) || match v.claims.of(claim).owner {
                    ResOwner::Request(request) => request.index() != i || request.generation()
                        != v.requests.generation(i),
                    ResOwner::Quote(_) => true,
                }
            },
            Some(_) => false,
        },
{
    broadcast use handle_of;

    if v.quote_fault(i) is Some {
        match v.claims.of(v.quotes.at(i).claim->0).owner {
            ResOwner::Quote(quote) => {
                if quote.index() == i && quote.generation() == v.quotes.generation(i) {
                    handle_extensional(quote, v.quote_handle(i));
                }
            },
            ResOwner::Request(_) => {},
        }
    }
    if v.request_fault(i) is Some {
        match v.claims.of(v.requests.at(i).claim->0).owner {
            ResOwner::Request(request) => {
                if request.index() == i && request.generation() == v.requests.generation(i) {
                    handle_extensional(request, v.request_handle(i));
                }
            },
            ResOwner::Quote(_) => {},
        }
    }
}

/// **A claim whose state is not its owner's is told as what is wrong with it**: an owner that is not
/// there; a reserved claim of a quote that does not stand or a request that is not open; a committed
/// claim of a quote that is not consumed, on the list of another request than its owner's, or of a
/// request that is not settling.
pub proof fn an_incoherence_is_told_as_it_is(v: LedgerView, i: u32)
    ensures
        match v.incoherence(i) {
            None => true,
            Some(InvariantViolation::OwnerDoesNotResolve(claim)) => {
                &&& in_slot(v, claim, i)
                &&& match (v.claims.at(i).list(), v.claims.at(i).owner) {
                    (_, ResOwner::Quote(quote)) if !v.quotes.names(quote) => true,
                    (None, ResOwner::Request(request)) => !v.requests.names(request),
                    (Some(list), _) => !v.requests.names(list),
                    _ => false,
                }
            },
            Some(InvariantViolation::ReservedClaimOwnerNotStanding(claim)) => {
                &&& in_slot(v, claim, i)
                &&& v.claims.at(i).list() is None
                &&& match v.claims.at(i).owner {
                    ResOwner::Quote(quote) => v.quotes.names(quote) && v.quotes.of(quote).state
                        != QuoteState::Active,
                    ResOwner::Request(request) => v.requests.names(request) && v.requests.of(
                        request,
                    ).state != RequestState::Open,
                }
            },
            Some(InvariantViolation::CommittedClaimOwnerNotConsumed(claim)) => {
                &&& in_slot(v, claim, i)
                &&& v.claims.at(i).list() is Some
                &&& match v.claims.at(i).owner {
                    ResOwner::Quote(quote) => v.quotes.names(quote) && v.quotes.of(quote).state
                        != QuoteState::Consumed,
                    ResOwner::Request(_) => false,
                }
            },
            Some(InvariantViolation::ClaimOnForeignCommittedList(list)) => {
                &&& v.claims.at(i).list() == Some(list)
                &&& match v.claims.at(i).owner {
                    ResOwner::Quote(quote) => v.quotes.of(quote).request != Some(list),
                    ResOwner::Request(request) => request != list,
                }
            },
            Some(InvariantViolation::CommittedClaimRequestNotSettling(claim)) => {
                &&& in_slot(v, claim, i)
                &&& v.claims.at(i).list() is Some
                &&& v.requests.names(v.claims.at(i).list()->0)
                &&& v.requests.of(v.claims.at(i).list()->0).state !is Settling
            },
            Some(_) => false,
        },
{
    broadcast use handle_of;

}

} // verus!
