//! Quotes coming to a leg and leaving it.

use crate::account::{Link, NIL};
use crate::arrays::{array_from, array_from_holds};
use crate::config::{MAX_LEGS, MAX_QUOTES_PER_LEG};
use crate::engine::book::{leg_kept, same_terms, spelling_is_chain, spells, stake};
use crate::engine::steps::{measures_kept, same_measure, same_owner_claim_ok};
use crate::ledger::keeps::{
    quote_closed_wf, quote_opened_wf, quote_rewritten_wf, request_rewritten_wf, reserved_wf,
};
use crate::ledger::model::LedgerView;
use crate::quote::{Quote, QuoteIdx};
use crate::request::{Leg, ReqIdx, Request};
use crate::reservation::{ResOwner, Reservation};
use crate::selection::{link_to, steps};
use crate::slab::{handle_extensional, handle_of, inserted_wf};
use crate::types::{Amount, UNIT};
use vstd::prelude::*;

verus! {

/// The quote in slot `i` is the same in `w`, but for the claim it holds.
pub open spec fn quote_kept(v: LedgerView, w: LedgerView, i: u32) -> bool {
    w.quotes.occupied(i) && w.quotes.generation(i) == v.quotes.generation(i) && same_terms(
        v.quotes.at(i),
        w.quotes.at(i),
    )
}

/// A request whose record did not change, and whose standing quotes did not either, is in order.
pub proof fn request_kept(v: LedgerView, w: LedgerView, r: u32, short: nat)
    requires
        v.request_ok_but(r, short),
        v.requests.occupied(r),
        w.requests.occupied(r),
        w.requests.generation(r) == v.requests.generation(r),
        w.requests.at(r) == v.requests.at(r),
        w.lists[r as int].len() == v.lists[r as int].len(),
        forall|i: u32|
            v.quotes.occupied(i) && v.quotes.at(i).request == Some(v.request_handle(r))
                && v.quotes.at(i).state is Active ==> #[trigger] quote_kept(v, w, i),
    ensures
        w.request_ok_but(r, short),
{
    broadcast use handle_of;

    let handle = v.request_handle(r);
    let record = v.requests.at(r);
    assert(w.request_handle(r) == handle);
    if record.state is Open {
        assert forall|l: int| 0 <= l < record.n_legs implies #[trigger] w.leg_ok(handle, l) by {
            assert(v.leg_ok(handle, l));
            let chain = v.quotes_on(handle, l);
            assert forall|k: int| 0 <= k < chain.len() implies {
                let i = #[trigger] chain[k];
                w.quotes.occupied(i) && same_terms(v.quotes.at(i), w.quotes.at(i))
            } by {
                assert(v.on_leg(chain[k], handle, l));
                assert(quote_kept(v, w, chain[k]));
            }
            leg_kept(v, w, handle, l);
        }
    }
}

/// Requests that did not change measure what they measured.
pub proof fn measures_of_the_same(v: LedgerView, w: LedgerView)
    requires
        w.requests == v.requests,
        forall|r: u32| v.requests.occupied(r) ==> (#[trigger] v.requests.at(r)).n_legs <= MAX_LEGS,
    ensures
        measures_kept(v, w),
{
    assert forall|r: u32| v.requests.occupied(r) implies {
        &&& #[trigger] w.requests.occupied(r)
        &&& w.requests.generation(r) == v.requests.generation(r)
        &&& v.requests.at(r).n_legs <= MAX_LEGS
        &&& same_measure(v.requests.at(r), w.requests.at(r))
        &&& v.requests.at(r).state !is Open ==> w.requests.at(r).state !is Open
    } by {
        assert(v.requests.at(r).n_legs <= MAX_LEGS);
    }
}

pub proof fn legs_fit(v: LedgerView)
    requires
        v.sound_book(),
    ensures
        forall|r: u32| v.requests.occupied(r) ==> (#[trigger] v.requests.at(r)).n_legs <= MAX_LEGS,
{
    assert forall|r: u32| v.requests.occupied(r) implies (#[trigger] v.requests.at(r)).n_legs
        <= MAX_LEGS by {
        assert(v.request_ok(r));
    }
}

// ───────────────────────────── quotes coming and going ─────────────────────────────

/// **Opening a quote with its claim leaves the book sound.**
pub proof fn quote_opened_sound(v: LedgerView, record: Quote, amount: Amount)
    requires
        v.wf(),
        v.sound_book(),
        v.open_quote_refused(record, amount) is None,
        record.state is Active,
        record.request is Some,
        v.requests.names(record.request->0),
        record.leg.0 < v.requests.of(record.request->0).n_legs,
        record.price.0 <= UNIT,
        amount.0 == stake(
            v.leg_at(record.request->0, record.leg.0 as int),
            record.price.0 as int,
        ),
    ensures
        ({
            let w = v.quote_opened_reserving(record, amount);
            let i = v.quotes.next_index();
            &&& w.wf()
            &&& w.sound_book()
            &&& w.requests == v.requests
            &&& w.contracts == v.contracts
            &&& w.lists == v.lists
            &&& w.accounts.len() == v.accounts.len()
            &&& !v.quotes.occupied(i)
            &&& w.quotes.occupied(i)
            &&& w.quotes.generation(i) == v.quotes.generation(i)
            &&& same_terms(record, w.quotes.at(i))
            &&& w.quotes.at(i).claim == Some(v.claims.next_handle::<Reservation>())
            &&& forall|j: u32|
                v.quotes.occupied(j) ==> #[trigger] w.quotes.occupied(j) && w.quotes.at(j)
                    == v.quotes.at(j) && w.quotes.generation(j) == v.quotes.generation(j)
        }),
{
    broadcast use handle_of;

    let bare = Quote { claim: None, ..record };
    let u = v.quote_opened(bare);
    let handle = v.quotes.next_handle::<Quote>();
    let w = v.quote_opened_reserving(record, amount);
    let j0 = v.quotes.next_index();
    let i0 = v.claims.next_index();
    quote_opened_wf(v, bare);
    inserted_wf(v.quotes, bare);
    assert(u.reserve_refused(record.maker, amount, ResOwner::Quote(handle)) is None);
    reserved_wf(u, record.maker, amount, record.expires_at, ResOwner::Quote(handle));
    inserted_wf(
        v.claims,
        Reservation::unlinked(record.maker, amount, ResOwner::Quote(handle), record.expires_at),
    );
    assert forall|r: u32| #[trigger] w.request_ok(r) by {
        assert(v.request_ok(r));
        if v.requests.occupied(r) {
            assert forall|i: u32|
                v.quotes.occupied(i) && v.quotes.at(i).request == Some(v.request_handle(r))
                    && v.quotes.at(i).state is Active implies #[trigger] quote_kept(v, w, i) by {}
            request_kept(v, w, r, 0);
        }
    }
    legs_fit(v);
    measures_of_the_same(v, w);
    assert forall|i: u32| #[trigger] w.claim_ok(i) by {
        assert(v.claim_ok(i));
        if i == i0 {
        } else if w.claims.occupied(i) {
            assert(v.claims.occupied(i) && w.claims.at(i) == v.claims.at(i));
            assert(v.owned(i));
            assert(v.claim_handle(i) == w.claim_handle(i));
            same_owner_claim_ok(v, w, i);
        }
    }
}

/// **Closing a quote that holds no claim and stands on no open leg leaves the book sound.**
pub proof fn quote_closed_sound(v: LedgerView, quote: QuoteIdx)
    requires
        v.wf(),
        v.sound_book(),
        v.quotes.names(quote),
        v.quotes.of(quote).claim is None,
        !v.shelved(quote.index()),
    ensures
        v.quote_closed(quote).wf(),
        v.quote_closed(quote).sound_book(),
{
    broadcast use handle_of;

    let w = v.quote_closed(quote);
    let gone = quote.index();
    quote_closed_wf(v, quote);
    assert(forall|j: u32|
        j != gone && v.quotes.occupied(j) ==> #[trigger] w.quotes.occupied(j) && w.quotes.at(j)
            == v.quotes.at(j) && w.quotes.generation(j) == v.quotes.generation(j));
    assert forall|r: u32| #[trigger] w.request_ok(r) by {
        assert(v.request_ok(r));
        if v.requests.occupied(r) && v.requests.at(r).state is Open {
            let handle = v.request_handle(r);
            assert forall|l: int| 0 <= l < v.requests.at(r).n_legs implies #[trigger] w.leg_ok(
                handle,
                l,
            ) by {
                assert(v.leg_ok(handle, l));
                let chain = v.quotes_on(handle, l);
                assert(!chain.contains(gone));
                assert forall|k: int| 0 <= k < chain.len() implies {
                    let i = #[trigger] chain[k];
                    w.quotes.occupied(i) && same_terms(v.quotes.at(i), w.quotes.at(i))
                } by {
                    assert(v.on_leg(chain[k], handle, l));
                    assert(chain.contains(chain[k]));
                }
                leg_kept(v, w, handle, l);
            }
        }
    }
    legs_fit(v);
    measures_of_the_same(v, w);
    assert forall|i: u32| #[trigger] w.claim_ok(i) by {
        assert(v.claim_ok(i));
        if w.claims.occupied(i) {
            assert(v.owned(i));
            same_owner_claim_ok(v, w, i);
        }
    }
}

/// A quote that is not standing, or whose request is not open, is on no open leg.
pub proof fn unshelved(v: LedgerView, i: u32)
    requires
        v.wf(),
        v.sound_book(),
        v.quotes.occupied(i),
        v.quotes.at(i).state !is Active || (v.quotes.at(i).request matches Some(request)
            ==> v.requests.names(request) && v.requests.of(request).state !is Open),
    ensures
        !v.shelved(i),
{
    broadcast use handle_of;

    if v.shelved(i) {
        let (r, l) = choose|r: u32, l: int|
            v.requests.occupied(r) && v.requests.at(r).state is Open && 0 <= l
                < v.requests.at(r).n_legs && #[trigger] v.quotes_on(
                v.request_handle(r),
                l,
            ).contains(i);
        assert(v.request_ok(r));
        assert(v.leg_ok(v.request_handle(r), l));
        let chain = v.quotes_on(v.request_handle(r), l);
        let k = chain.index_of(i);
        assert(v.on_leg(chain[k], v.request_handle(r), l));
    }
}

/// What is the same when a leg of `request` and some of that leg's links are rewritten.
pub open spec fn rethreaded(v: LedgerView, w: LedgerView, request: ReqIdx, l: int) -> bool {
    let (a, b) = (v.requests.of(request), w.requests.of(request));
    &&& w.accounts == v.accounts
    &&& w.contracts == v.contracts
    &&& w.claims == v.claims
    &&& w.chains == v.chains
    &&& w.lists == v.lists
    &&& w.quotes.slots.len() == v.quotes.slots.len()
    &&& w.requests.slots.len() == v.requests.slots.len()
    &&& forall|r: u32|
        r != request.index() && v.requests.occupied(r) ==> #[trigger] w.requests.occupied(r)
            && w.requests.at(r) == v.requests.at(r) && w.requests.generation(r)
            == v.requests.generation(r)
    &&& forall|r: u32| #[trigger] w.requests.occupied(r) ==> v.requests.occupied(r)
    &&& w.requests.names(request)
    &&& b == (Request { legs: b.legs, ..a })
    &&& b.legs@.len() == MAX_LEGS
    &&& forall|m: int| 0 <= m < MAX_LEGS && m != l ==> #[trigger] b.legs@[m] == a.legs@[m]
    &&& b.legs@[l] == (Leg {
        quotes_head: b.legs@[l].quotes_head,
        quote_count: b.legs@[l].quote_count,
        ..a.legs@[l]
    })
    &&& forall|j: u32|
        v.quotes.occupied(j) ==> {
            &&& #[trigger] w.quotes.occupied(j)
            &&& w.quotes.generation(j) == v.quotes.generation(j)
            &&& w.quotes.at(j) == (Quote {
                next_on_leg: w.quotes.at(j).next_on_leg,
                ..v.quotes.at(j)
            })
        }
    &&& forall|j: u32| #[trigger] w.quotes.occupied(j) ==> v.quotes.occupied(j)
}

/// Rethreading one leg leaves the rest of the book as it was.
proof fn rethreaded_sound(v: LedgerView, w: LedgerView, request: ReqIdx, l: int)
    requires
        v.wf(),
        v.sound_book(),
        v.requests.names(request),
        v.requests.of(request).state is Open,
        0 <= l < v.requests.of(request).n_legs,
        rethreaded(v, w, request, l),
        w.leg_ok(request, l),
        forall|j: u32|
            v.quotes.occupied(j) && !(v.quotes.at(j).request == Some(request) && v.quotes.at(
                j,
            ).leg.0 == l && v.quotes.at(j).state is Active) ==> (#[trigger] w.quotes.at(
                j,
            )).next_on_leg == v.quotes.at(j).next_on_leg,
    ensures
        w.sound_book(),
{
    broadcast use handle_of;

    let r0 = request.index();
    assert(v.request_ok(r0));
    handle_extensional(request, v.request_handle(r0));
    assert forall|r: u32| #[trigger] w.request_ok(r) by {
        assert(v.request_ok(r));
        if w.requests.occupied(r) {
            let handle = v.request_handle(r);
            assert(w.request_handle(r) == handle);
            if v.requests.at(r).state is Open {
                assert forall|m: int| 0 <= m < v.requests.at(r).n_legs implies #[trigger] w.leg_ok(
                    handle,
                    m,
                ) by {
                    assert(v.leg_ok(handle, m));
                    if r != r0 || m != l {
                        if r != r0 {
                            assert(handle != request);
                        }
                        let chain = v.quotes_on(handle, m);
                        assert forall|k: int| 0 <= k < chain.len() implies {
                            let i = #[trigger] chain[k];
                            w.quotes.occupied(i) && same_terms(v.quotes.at(i), w.quotes.at(i))
                        } by {
                            assert(v.on_leg(chain[k], handle, m));
                            assert(w.quotes.occupied(chain[k]));
                            assert(w.quotes.at(chain[k]).next_on_leg == v.quotes.at(
                                chain[k],
                            ).next_on_leg);
                        }
                        leg_kept(v, w, handle, m);
                    }
                }
            }
        }
    }
    legs_fit(v);
    assert forall|r: u32| v.requests.occupied(r) implies {
        &&& #[trigger] w.requests.occupied(r)
        &&& w.requests.generation(r) == v.requests.generation(r)
        &&& v.requests.at(r).n_legs <= MAX_LEGS
        &&& same_measure(v.requests.at(r), w.requests.at(r))
        &&& v.requests.at(r).state !is Open ==> w.requests.at(r).state !is Open
    } by {
        assert(v.requests.at(r).n_legs <= MAX_LEGS);
        if r == r0 {
            assert forall|m: int| 0 <= m < MAX_LEGS implies (#[trigger] w.requests.at(
                r,
            ).legs@[m]).size == v.requests.at(r).legs@[m].size && w.requests.at(r).legs@[m].limit
                == v.requests.at(r).legs@[m].limit by {
                if m != l {
                    assert(w.requests.of(request).legs@[m] == v.requests.of(request).legs@[m]);
                }
            }
        }
    }
    assert(measures_kept(v, w));
    assert forall|i: u32| #[trigger] w.claim_ok(i) by {
        assert(v.claim_ok(i));
        if w.claims.occupied(i) {
            assert(v.owned(i));
            match v.claims.at(i).owner {
                ResOwner::Quote(quote) => {
                    assert(w.quotes.occupied(quote.index()));
                },
                ResOwner::Request(other) => {
                    assert(w.requests.occupied(other.index()));
                },
            }
            if let Some(list) = v.claims.at(i).list() {
                assert(w.requests.occupied(list.index()));
            }
            same_owner_claim_ok(v, w, i);
        }
    }
}

/// **Taking a quote off its leg leaves the book sound**: the leg's chain is what it was without
/// that quote.
pub proof fn unlinked_sound(v: LedgerView, request: ReqIdx, l: int, i: u32)
    requires
        v.wf(),
        v.sound_book(),
        v.requests.names(request),
        v.requests.of(request).state is Open,
        0 <= l < v.requests.of(request).n_legs,
        v.quotes_on(request, l).contains(i),
    ensures
        ({
            let w = v.unlinked(request, l, i);
            let chain = v.quotes_on(request, l);
            &&& w.wf()
            &&& w.sound_book()
            &&& rethreaded(v, w, request, l)
            &&& w.quotes_on(request, l) == chain.remove(chain.index_of(i))
            &&& !w.shelved(i)
            &&& v.quotes.occupied(i)
            &&& w.quotes.at(i) == v.quotes.at(i)
        }),
{
    broadcast use {handle_of, array_from_holds};

    let r0 = request.index();
    assert(v.request_ok(r0));
    handle_extensional(request, v.request_handle(r0));
    assert(v.leg_ok(request, l));
    let w = v.unlinked(request, l, i);
    let leg = v.leg_at(request, l);
    let chain = v.quotes_on(request, l);
    let k = chain.index_of(i);
    let rest = chain.remove(k);
    assert(chain[k] == i);
    assert(v.on_leg(chain[k], request, l));
    assert forall|j: int| 0 <= j < chain.len() implies v.on_leg(
        #[trigger] chain[j],
        request,
        l,
    ) by {}
    let record = v.requests.of(request);
    if k > 0 {
        assert(v.on_leg(chain[k - 1], request, l));
        let prev = v.quote_handle(chain[k - 1]);
        let rewritten = Quote { next_on_leg: v.quotes.at(i).next_on_leg, ..v.quotes.of(prev) };
        quote_rewritten_wf(v, prev, rewritten);
        let u = v.quote_rewritten(prev, rewritten);
        let shorter = Leg { quote_count: (leg.quote_count - 1) as u8, ..leg };
        request_rewritten_wf(
            u,
            request,
            Request { legs: array_from(record.legs@.update(l, shorter)), ..record },
        );
    } else {
        let shorter = Leg {
            quotes_head: v.quotes.at(i).next_on_leg,
            quote_count: (leg.quote_count - 1) as u8,
            ..leg
        };
        request_rewritten_wf(
            v,
            request,
            Request { legs: array_from(record.legs@.update(l, shorter)), ..record },
        );
    }
    assert(rethreaded(v, w, request, l));
    let head = leg.quotes_head;
    let head2 = w.leg_at(request, l).quotes_head;
    assert forall|j: int| 0 <= j < rest.len() implies #[trigger] steps(
        w.quotes,
        head2,
        rest,
        j,
    ) by {
        let from = if j < k {
            j
        } else {
            j + 1
        };
        assert(rest[j] == chain[from]);
        assert(steps(v.quotes, head, chain, from));
        assert(v.on_leg(chain[from], request, l));
        assert(w.quotes.occupied(chain[from]));
        if j > 0 {
            let before = if j - 1 < k {
                j - 1
            } else {
                j
            };
            assert(rest[j - 1] == chain[before]);
            assert(v.on_leg(chain[before], request, l));
            if j == k {
                assert(steps(v.quotes, head, chain, k + 1));
            } else {
                assert(chain[before] != chain[k - 1] || k == 0);
            }
        } else if k == 0 {
            assert(steps(v.quotes, head, chain, 1));
        }
    }
    assert(link_to(w.quotes, head2, rest, rest.len() as int) == Link(NIL)) by {
        assert(link_to(v.quotes, head, chain, chain.len() as int) == Link(NIL));
        if rest.len() > 0 {
            let last = rest.len() - 1;
            let before = if last < k {
                last
            } else {
                last + 1
            };
            assert(rest[last] == chain[before]);
            assert(v.on_leg(chain[before], request, l));
            if k > 0 && before != k - 1 {
                assert(chain[before] != chain[k - 1]);
            }
        }
    }
    assert(spells(w.quotes, head2, rest));
    spelling_is_chain(w.quotes, head2, rest);
    assert(w.leg_ok(request, l)) by {
        assert forall|a: int, b: int| 0 <= a < b < rest.len() implies rest[a] != rest[b] by {
            let a2 = if a < k {
                a
            } else {
                a + 1
            };
            let b2 = if b < k {
                b
            } else {
                b + 1
            };
            assert(rest[a] == chain[a2] && rest[b] == chain[b2]);
        }
        assert forall|j: int| 0 <= j < rest.len() implies w.on_leg(
            #[trigger] rest[j],
            request,
            l,
        ) by {
            let from = if j < k {
                j
            } else {
                j + 1
            };
            assert(rest[j] == chain[from]);
            assert(v.on_leg(chain[from], request, l));
            assert(w.quotes.occupied(chain[from]));
        }
        assert forall|a: int, b: int| 0 <= a < b < rest.len() implies w.quotes.at(
            #[trigger] rest[a],
        ).maker != w.quotes.at(#[trigger] rest[b]).maker by {
            let a2 = if a < k {
                a
            } else {
                a + 1
            };
            let b2 = if b < k {
                b
            } else {
                b + 1
            };
            assert(rest[a] == chain[a2] && rest[b] == chain[b2]);
            assert(v.on_leg(chain[a2], request, l));
            assert(v.on_leg(chain[b2], request, l));
            assert(w.quotes.occupied(chain[a2]));
            assert(w.quotes.occupied(chain[b2]));
        }
    }
    assert forall|j: u32|
        v.quotes.occupied(j) && !(v.quotes.at(j).request == Some(request) && v.quotes.at(j).leg.0
            == l && v.quotes.at(j).state is Active) implies (#[trigger] w.quotes.at(j)).next_on_leg
        == v.quotes.at(j).next_on_leg by {
        if k > 0 {
            assert(v.on_leg(chain[k - 1], request, l));
        }
    }
    rethreaded_sound(v, w, request, l);
    if w.shelved(i) {
        let (r, m) = choose|r: u32, m: int|
            w.requests.occupied(r) && w.requests.at(r).state is Open && 0 <= m
                < w.requests.at(r).n_legs && #[trigger] w.quotes_on(
                w.request_handle(r),
                m,
            ).contains(i);
        assert(w.request_ok(r));
        let handle = w.request_handle(r);
        assert(w.leg_ok(handle, m));
        let c2 = w.quotes_on(handle, m);
        let k2 = c2.index_of(i);
        assert(w.on_leg(c2[k2], handle, m));
        assert(w.quotes.occupied(i));
        assert(handle == request && m == l);
        let j = rest.index_of(i);
        assert(rest[j] == i);
        let from = if j < k {
            j
        } else {
            j + 1
        };
        assert(rest[j] == chain[from]);
        assert(false);
    }
}

/// **Putting a quote at the end of its leg leaves the book sound.**
pub proof fn linked_sound(v: LedgerView, request: ReqIdx, l: int, i: u32)
    requires
        v.wf(),
        v.sound_book(),
        v.requests.names(request),
        v.requests.of(request).state is Open,
        0 <= l < v.requests.of(request).n_legs,
        v.on_leg(i, request, l),
        v.quotes.at(i).next_on_leg == Link(NIL),
        !v.quotes_on(request, l).contains(i),
        v.quotes_on(request, l).len() < MAX_QUOTES_PER_LEG,
        forall|k: int|
            0 <= k < v.quotes_on(request, l).len() ==> v.quotes.at(
                #[trigger] v.quotes_on(request, l)[k],
            ).maker != v.quotes.at(i).maker,
    ensures
        ({
            let w = v.linked(request, l, i);
            &&& w.wf()
            &&& w.sound_book()
            &&& rethreaded(v, w, request, l)
            &&& w.quotes_on(request, l) == v.quotes_on(request, l).push(i)
        }),
{
    broadcast use {handle_of, array_from_holds};

    let r0 = request.index();
    assert(v.request_ok(r0));
    handle_extensional(request, v.request_handle(r0));
    assert(v.leg_ok(request, l));
    let w = v.linked(request, l, i);
    let leg = v.leg_at(request, l);
    let chain = v.quotes_on(request, l);
    let longer = chain.push(i);
    let n = chain.len() as int;
    let record = v.requests.of(request);
    assert(i < v.quotes.slots.len() && i != NIL);
    if n > 0 {
        assert(v.on_leg(chain[n - 1], request, l));
        let last = v.quote_handle(chain.last());
        let rewritten = Quote { next_on_leg: Link(i), ..v.quotes.of(last) };
        quote_rewritten_wf(v, last, rewritten);
        let u = v.quote_rewritten(last, rewritten);
        let grown = Leg { quote_count: (leg.quote_count + 1) as u8, ..leg };
        request_rewritten_wf(
            u,
            request,
            Request { legs: array_from(record.legs@.update(l, grown)), ..record },
        );
    } else {
        let grown = Leg {
            quotes_head: Link(i),
            quote_count: (leg.quote_count + 1) as u8,
            ..leg
        };
        request_rewritten_wf(
            v,
            request,
            Request { legs: array_from(record.legs@.update(l, grown)), ..record },
        );
    }
    assert(rethreaded(v, w, request, l));
    let head = leg.quotes_head;
    let head2 = w.leg_at(request, l).quotes_head;
    assert forall|j: int| 0 <= j < longer.len() implies #[trigger] steps(
        w.quotes,
        head2,
        longer,
        j,
    ) by {
        if j < n {
            assert(steps(v.quotes, head, chain, j));
            assert(v.on_leg(chain[j], request, l));
            assert(w.quotes.occupied(chain[j]));
            if j > 0 {
                assert(v.on_leg(chain[j - 1], request, l));
                assert(chain[j - 1] != chain[n - 1]);
            }
        } else {
            assert(w.quotes.occupied(i));
            if n > 0 {
                assert(longer[n - 1] == chain.last());
            }
        }
    }
    assert(link_to(w.quotes, head2, longer, longer.len() as int) == Link(NIL)) by {
        assert(longer[n] == i);
        if n > 0 {
            assert(chain.contains(chain[n - 1]));
        }
    }
    assert(spells(w.quotes, head2, longer));
    spelling_is_chain(w.quotes, head2, longer);
    assert(w.leg_ok(request, l)) by {
        assert forall|a: int, b: int| 0 <= a < b < longer.len() implies longer[a] != longer[b] by {
            if b == n {
                assert(chain.contains(chain[a]));
            }
        }
        assert forall|j: int| 0 <= j < longer.len() implies w.on_leg(
            #[trigger] longer[j],
            request,
            l,
        ) by {
            if j < n {
                assert(v.on_leg(chain[j], request, l));
            }
            assert(w.quotes.occupied(longer[j]));
        }
        assert forall|a: int, b: int| 0 <= a < b < longer.len() implies w.quotes.at(
            #[trigger] longer[a],
        ).maker != w.quotes.at(#[trigger] longer[b]).maker by {
            assert(v.on_leg(chain[a], request, l));
            assert(w.quotes.occupied(longer[a]));
            if b < n {
                assert(v.on_leg(chain[b], request, l));
            }
            assert(w.quotes.occupied(longer[b]));
        }
    }
    assert forall|j: u32|
        v.quotes.occupied(j) && !(v.quotes.at(j).request == Some(request) && v.quotes.at(j).leg.0
            == l && v.quotes.at(j).state is Active) implies (#[trigger] w.quotes.at(j)).next_on_leg
        == v.quotes.at(j).next_on_leg by {
        if n > 0 {
            assert(v.on_leg(chain[n - 1], request, l));
        }
    }
    rethreaded_sound(v, w, request, l);
}

} // verus!
