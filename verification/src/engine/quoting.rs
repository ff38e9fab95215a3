//! Quotes: a maker coming to a leg, in place of their own earlier quote if they have one.

use crate::account::{AccountIdx, Link, NIL};
use crate::arrays::{array_from, array_from_holds, array_is};
use crate::config::{MAX_LEGS, MAX_QUOTES_PER_LEG};
use crate::engine::book::{same_terms, spelling_is_chain, stake};
use crate::engine::closing::{freed_sound, standing_claim_is_reserved};
use crate::engine::model::EngineView;
use crate::engine::shelf::{linked_sound, quote_closed_sound, quote_opened_sound, unlinked_sound};
use crate::engine::{headroom_of, performs, Engine, EngineError};
use crate::event::{Event, EventBuffer, QuoteRejectReason};
use crate::ledger::keeps::{index_of_entry, released_wf, request_rewritten_wf};
use crate::ledger::model::LedgerView;
use crate::ledger::{Ledger, LedgerError};
use crate::quote::{Quote, QuoteIdx, QuoteState};
use crate::request::{Leg, ReqIdx, Request, RequestState};
use crate::selection::{
    best_on_leg, first_standing, handles, standing, standing_quote_of, walk_ends, walk_leg,
};
use crate::slab::{handle_extensional, handle_of, inserted_wf};
use crate::types::{Amount, LegId, Price, Size, Ts, UNIT};
use vstd::prelude::*;

verus! {

/// Rewrite one leg of a request.
pub(super) fn rewrite_leg(ledger: &mut Ledger, request: ReqIdx, l: usize, leg: Leg)
    requires
        old(ledger).wf(),
        old(ledger)@.requests.names(request),
        l < MAX_LEGS,
    ensures
        final(ledger).wf(),
        final(ledger)@ == old(ledger)@.with_leg(request, l as int, leg),
{
    let ghost before = ledger@;
    match ledger.request_mut(request) {
        Some(record) => {
            let mut legs = record.legs;
            legs[l] = leg;
            proof {
                array_is(legs);
                assert(legs@ =~= before.requests.of(request).legs@.update(l as int, leg));
            }
            record.legs = legs;
        },
        None => {},
    }
}

/// Point a quote at the next one on its leg.
fn rewrite_next(ledger: &mut Ledger, quote: QuoteIdx, next: Link)
    requires
        old(ledger).wf(),
        old(ledger)@.quotes.names(quote),
    ensures
        final(ledger).wf(),
        final(ledger)@ == old(ledger)@.quote_rewritten(
            quote,
            Quote { next_on_leg: next, ..old(ledger)@.quotes.of(quote) },
        ),
{
    match ledger.quote_mut(quote) {
        Some(record) => {
            record.next_on_leg = next;
        },
        None => {},
    }
}

/// The leg an open request's record holds, and the chain it spells.
pub(super) proof fn open_leg(v: LedgerView, request: ReqIdx, l: int)
    requires
        v.wf(),
        v.sound_book(),
        v.requests.names(request),
        v.requests.of(request).state is Open,
        0 <= l < v.requests.of(request).n_legs,
    ensures
        v.requests.of(request).n_legs <= MAX_LEGS,
        v.leg_ok(request, l),
        walk_ends(v.quotes, v.leg_at(request, l).quotes_head),
        forall|k: int|
            0 <= k < v.quotes_on(request, l).len() ==> v.on_leg(
                #[trigger] v.quotes_on(request, l)[k],
                request,
                l,
            ),
{
    broadcast use handle_of;

    assert(v.request_ok(request.index()));
    handle_extensional(request, v.request_handle(request.index()));
    assert(v.leg_ok(request, l));
    spelling_is_chain(v.quotes, v.leg_at(request, l).quotes_head, v.quotes_on(request, l));
}

/// What a maker's standing quote on an open leg is: on the leg, theirs, and the only one.
pub(super) proof fn standing_is(v: LedgerView, request: ReqIdx, l: int, maker: AccountIdx)
    requires
        v.wf(),
        v.sound_book(),
        v.requests.names(request),
        v.requests.of(request).state is Open,
        0 <= l < v.requests.of(request).n_legs,
    ensures
        ({
            let chain = v.quotes_on(request, l);
            match standing(v.quotes, v.leg_at(request, l).quotes_head, maker) {
                Some(quote) => {
                    &&& chain.contains(quote.index())
                    &&& v.quotes.names(quote)
                    &&& v.quotes.of(quote).maker == maker
                    &&& v.quotes.of(quote).state is Active
                    &&& forall|k: int|
                        0 <= k < chain.len() && chain[k] != quote.index() ==> v.quotes.at(
                            #[trigger] chain[k],
                        ).maker != maker
                },
                None => forall|k: int|
                    0 <= k < chain.len() ==> v.quotes.at(#[trigger] chain[k]).maker != maker,
            }
        }),
{
    broadcast use handle_of;

    open_leg(v, request, l);
    let chain = v.quotes_on(request, l);
    if exists|k: int| first_standing(v.quotes, maker, chain, k) {
        let k = choose|k: int| first_standing(v.quotes, maker, chain, k);
        assert(v.on_leg(chain[k], request, l));
        assert(chain.contains(chain[k]));
        assert forall|j: int| 0 <= j < chain.len() && chain[j] != chain[k] implies v.quotes.at(
            #[trigger] chain[j],
        ).maker != maker by {
            if j < k {
                assert(v.quotes.at(chain[j]).maker != v.quotes.at(chain[k]).maker);
            } else {
                assert(v.quotes.at(chain[k]).maker != v.quotes.at(chain[j]).maker);
            }
        }
    } else {
        assert forall|k: int| 0 <= k < chain.len() implies v.quotes.at(#[trigger] chain[k]).maker
            != maker by {
            if v.quotes.at(chain[k]).maker == maker {
                let first = first_of(v, maker, chain, k);
                assert(v.on_leg(chain[first], request, l));
                assert(first_standing(v.quotes, maker, chain, first));
            }
        }
    }
}

proof fn first_of(v: LedgerView, maker: AccountIdx, chain: Seq<u32>, k: int) -> (first: int)
    requires
        0 <= k < chain.len(),
        v.quotes.at(chain[k]).maker == maker,
        forall|j: int| 0 <= j < chain.len() ==> v.quotes.at(#[trigger] chain[j]).state is Active,
    ensures
        0 <= first < chain.len(),
        first_standing(v.quotes, maker, chain, first),
    decreases k,
{
    assert(v.quotes.at(chain[k]).state is Active);
    if exists|j: int| 0 <= j < k && v.quotes.at(#[trigger] chain[j]).maker == maker {
        let j = choose|j: int| 0 <= j < k && v.quotes.at(#[trigger] chain[j]).maker == maker;
        first_of(v, maker, chain, j)
    } else {
        k
    }
}

/// Take a quote off its leg.
fn unlink(ledger: &mut Ledger, request: ReqIdx, l: usize, quote: QuoteIdx)
    requires
        old(ledger).wf(),
        old(ledger)@.sound_book(),
        old(ledger)@.requests.names(request),
        old(ledger)@.requests.of(request).state is Open,
        l < old(ledger)@.requests.of(request).n_legs,
        old(ledger)@.quotes.names(quote),
        old(ledger)@.quotes_on(request, l as int).contains(quote.index()),
    ensures
        final(ledger).wf(),
        final(ledger)@ == old(ledger)@.unlinked(request, l as int, quote.index()),
{
    broadcast use handle_of;

    let ghost before = ledger@;
    let ghost chain = before.quotes_on(request, l as int);
    let ghost at = chain.index_of(quote.index());
    proof {
        ledger.wf_model();
        open_leg(before, request, l as int);
    }
    let mut leg: Leg = Leg::default();
    match ledger.request(request) {
        Some(record) => {
            leg = record.legs[l];
        },
        None => {},
    }
    let mut next = Link::nil();
    match ledger.quote(quote) {
        Some(record) => {
            next = record.next_on_leg;
        },
        None => {},
    }
    let quotes = walk_leg(ledger, &leg);
    let mut k: usize = 0;
    while k < quotes.len() && quotes[k] != quote
        invariant
            k <= quotes@.len(),
            quotes@ == handles(before.quotes, chain),
            forall|j: int| 0 <= j < k ==> #[trigger] quotes@[j] != quote,
        decreases quotes@.len() - k,
    {
        k += 1;
    }
    proof {
        handle_extensional(quote, before.quote_handle(quote.index()));
        assert(chain[at] == quote.index());
        assert(quotes@[at] == before.quote_handle(chain[at]));
        assert(k < quotes@.len());
        assert(quotes@[k as int].index() == chain[k as int]);
        index_of_entry(chain, k as int);
        assert(at == k);
        assert(before.leg_ok(request, l as int));
    }
    leg.quote_count = leg.quote_count - 1;
    if k > 0 {
        let prev = quotes[k - 1];
        proof {
            assert(before.on_leg(chain[k - 1], request, l as int));
            assert(quotes@[k - 1] == before.quote_handle(chain[k - 1]));
        }
        rewrite_next(ledger, prev, next);
    } else {
        leg.quotes_head = next;
    }
    rewrite_leg(ledger, request, l, leg);
}

/// Put a quote at the end of its leg.
fn link(ledger: &mut Ledger, request: ReqIdx, l: usize, quote: QuoteIdx)
    requires
        old(ledger).wf(),
        old(ledger)@.sound_book(),
        old(ledger)@.requests.names(request),
        old(ledger)@.requests.of(request).state is Open,
        l < old(ledger)@.requests.of(request).n_legs,
        quote.index() != NIL,
    ensures
        final(ledger).wf(),
        final(ledger)@ == old(ledger)@.linked(request, l as int, quote.index()),
{
    broadcast use handle_of;

    let ghost before = ledger@;
    let ghost chain = before.quotes_on(request, l as int);
    proof {
        ledger.wf_model();
        open_leg(before, request, l as int);
        assert(before.leg_ok(request, l as int));
    }
    let mut leg: Leg = Leg::default();
    match ledger.request(request) {
        Some(record) => {
            leg = record.legs[l];
        },
        None => {},
    }
    let quotes = walk_leg(ledger, &leg);
    leg.quote_count = leg.quote_count + 1;
    let n: usize = quotes.len();
    if n > 0 {
        let last = quotes[n - 1];
        proof {
            assert(before.on_leg(chain[n - 1], request, l as int));
            assert(quotes@[n - 1] == before.quote_handle(chain.last()));
        }
        rewrite_next(ledger, last, Link::to(quote.index()));
    } else {
        leg.quotes_head = Link::to(quote.index());
    }
    rewrite_leg(ledger, request, l, leg);
}

/// Release a quote's claim, if it holds one.
pub(super) fn free_quote(ledger: &mut Ledger, quote: QuoteIdx)
    requires
        old(ledger).wf(),
        old(ledger)@.sound_book(),
        old(ledger)@.quotes.names(quote),
        old(ledger)@.quotes.of(quote).state is Active,
    ensures
        final(ledger).wf(),
        final(ledger)@ == old(ledger)@.quote_freed(quote),
{
    proof {
        ledger.wf_model();
        standing_claim_is_reserved(ledger@, quote);
    }
    let mut held = None;
    match ledger.quote(quote) {
        Some(record) => {
            held = record.claim();
        },
        None => {},
    }
    match held {
        Some(claim) => {
            let mut phase = ledger.commit_phase();
            phase.release(claim);
        },
        None => {},
    }
}

/// After a standing quote is withdrawn from its leg, the book is sound and the leg has every
/// other maker on it.
pub(super) proof fn cleared_sound(v: LedgerView, request: ReqIdx, l: int, quote: QuoteIdx)
    requires
        v.wf(),
        v.sound_book(),
        v.requests.names(request),
        v.requests.of(request).state is Open,
        0 <= l < v.requests.of(request).n_legs,
        v.quotes.names(quote),
        v.quotes_on(request, l).contains(quote.index()),
    ensures
        ({
            let freed = v.quote_freed(quote);
            let parted = freed.unlinked(request, l, quote.index());
            let w = v.cleared(request, l, Some(quote));
            let chain = v.quotes_on(request, l);
            &&& freed.wf()
            &&& freed.sound_book()
            &&& freed.requests.names(request)
            &&& freed.requests.of(request).state is Open
            &&& freed.requests.of(request).n_legs == v.requests.of(request).n_legs
            &&& freed.quotes.names(quote)
            &&& freed.quotes_on(request, l).contains(quote.index())
            &&& v.quotes.of(quote).state is Active
            &&& parted.wf()
            &&& parted.close_quote_refused(quote) is None
            &&& w.wf()
            &&& w.sound_book()
            &&& w.contracts == v.contracts
            &&& w.accounts.len() == v.accounts.len()
            &&& w.requests.names(request)
            &&& w.requests.of(request).state is Open
            &&& w.requests.of(request).n_legs == v.requests.of(request).n_legs
            &&& w.leg_at(request, l).size == v.leg_at(request, l).size
            &&& w.leg_at(request, l).published == v.leg_at(request, l).published
            &&& w.quotes_on(request, l) == chain.remove(chain.index_of(quote.index()))
            &&& forall|k: int|
                0 <= k < w.quotes_on(request, l).len() ==> {
                    let i = #[trigger] w.quotes_on(request, l)[k];
                    chain.contains(i) && i != quote.index() && w.quotes.at(i).maker == v.quotes.at(
                        i,
                    ).maker
                }
        }),
{
    broadcast use handle_of;

    open_leg(v, request, l);
    let chain = v.quotes_on(request, l);
    let at = chain.index_of(quote.index());
    assert(v.on_leg(chain[at], request, l));
    freed_sound(v, quote);
    let freed = v.quote_freed(quote);
    assert(v.same_request_at(freed, request.index()));
    assert(v.same_quote(freed, quote.index()));
    assert forall|k: int| 0 <= k < chain.len() implies {
        let i = #[trigger] chain[k];
        freed.quotes.occupied(i) && same_terms(v.quotes.at(i), freed.quotes.at(i))
    } by {
        assert(v.on_leg(chain[k], request, l));
        assert(v.same_quote(freed, chain[k]));
    }
    crate::engine::book::leg_kept(v, freed, request, l);
    unlinked_sound(freed, request, l, quote.index());
    let parted = freed.unlinked(request, l, quote.index());
    assert(parted.quotes.occupied(quote.index()));
    quote_closed_sound(parted, quote);
    let w = v.cleared(request, l, Some(quote));
    let rest = chain.remove(at);
    open_leg(parted, request, l);
    assert forall|k: int| 0 <= k < rest.len() implies {
        let i = #[trigger] rest[k];
        &&& chain.contains(i)
        &&& i != quote.index()
        &&& w.quotes.occupied(i)
        &&& w.quotes.at(i) == parted.quotes.at(i)
        &&& w.quotes.at(i).maker == v.quotes.at(i).maker
    } by {
        let from = if k < at {
            k
        } else {
            k + 1
        };
        assert(rest[k] == chain[from]);
        assert(chain.contains(chain[from]));
        assert(v.on_leg(chain[from], request, l));
        assert(freed.quotes.occupied(chain[from]));
        assert(parted.quotes.occupied(chain[from]));
    }
    assert forall|k: int| 0 <= k < rest.len() implies {
        let i = #[trigger] parted.quotes_on(request, l)[k];
        w.quotes.occupied(i) && same_terms(parted.quotes.at(i), w.quotes.at(i))
    } by {
        assert(parted.quotes_on(request, l)[k] == rest[k]);
    }
    crate::engine::book::leg_kept(parted, w, request, l);
}

/// Once a standing quote is withdrawn, a claim that was admissible in its place is admissible.
pub(super) proof fn replacement_is_admissible(
    v: LedgerView,
    request: ReqIdx,
    l: int,
    prior: Option<QuoteIdx>,
    record: Quote,
    amount: Amount,
)
    requires
        v.wf(),
        v.sound_book(),
        v.requests.names(request),
        v.requests.of(request).state is Open,
        0 <= l < v.requests.of(request).n_legs,
        prior matches Some(quote) ==> v.quotes.names(quote) && v.quotes_on(request, l).contains(
            quote.index(),
        ) && v.quotes.of(quote).maker == record.maker,
        v.replacement_refused(prior, record.maker, amount) is None,
    ensures
        v.cleared(request, l, prior).open_quote_refused(record, amount) is None,
{
    broadcast use handle_of;

    match prior {
        Some(quote) => {
            cleared_sound(v, request, l, quote);
            standing_claim_is_reserved(v, quote);
            let freed = v.quote_freed(quote);
            let parted = freed.unlinked(request, l, quote.index());
            let w = v.cleared(request, l, prior);
            unlinked_sound(freed, request, l, quote.index());
            assert(parted.quotes.free == v.quotes.free);
            assert(parted.quotes.generation(quote.index()) == v.quotes.generation(quote.index()))
                by {
                freed_sound(v, quote);
                assert(v.same_quote(freed, quote.index()));
                assert(parted.quotes.occupied(quote.index()));
            }
            match v.quotes.of(quote).claim {
                Some(claim) => {
                    let i = claim.index();
                    assert(v.claim_ok(i));
                    released_wf(v, i);
                    assert(w.accounts == v.unchained(i).accounts);
                    assert(w.claims == v.claims.removed(i));
                },
                None => {},
            }
            if v.quotes.generation(quote.index()) < u32::MAX {
                assert(w.quotes.free[0] == quote.index());
            }
        },
        None => {},
    }
}

impl Engine {
    /// The best eligible price on a leg, if it changed since it was last published; recorded as
    /// published.
    fn publish(&mut self, request: ReqIdx, l: usize, now: Ts) -> (r: Option<Price>)
        requires
            old(self).wf(),
            old(self)@.ledger.requests.names(request),
            old(self)@.ledger.requests.of(request).state is Open,
            l < old(self)@.ledger.requests.of(request).n_legs,
        ensures
            final(self).wf(),
            r == old(self)@.ledger.publication(request, l as int, now),
            final(self)@ == (EngineView {
                ledger: old(self)@.ledger.published(request, l as int, now),
                ..old(self)@
            }),
    {
        let ghost before = self@.ledger;
        proof {
            self.ledger.wf_model();
            open_leg(before, request, l as int);
        }
        let mut leg: Leg = Leg::default();
        match self.ledger.request(request) {
            Some(record) => {
                leg = record.legs[l];
            },
            None => {},
        }
        match best_on_leg(&self.ledger, &leg, now) {
            Ok(best) => {
                let changed = match leg.published {
                    Some(price) => price.0 != best.price.0,
                    None => true,
                };
                if changed {
                    leg.published = Some(best.price);
                    rewrite_leg(&mut self.ledger, request, l, leg);
                    proof {
                        published_sound(before, request, l as int, leg);
                        self.ledger.wf_model();
                    }
                    Some(best.price)
                } else {
                    None
                }
            },
            Err(_) => None,
        }
    }

    /// Whether a quote's terms, and its maker's place on the leg, are admissible.
    fn check_quote(
        &self,
        maker: AccountIdx,
        request: ReqIdx,
        leg: LegId,
        price: Price,
        size: Size,
        expires_at: Ts,
        now: Ts,
    ) -> (r: Result<(Leg, Option<QuoteIdx>), EngineError>)
        requires
            self.wf(),
        ensures
            match r {
                Ok((found, prior)) => {
                    &&& self@.leg_closed(request, leg, now) is None
                    &&& self@.terms_refused(request, leg, price, size, expires_at, now) is None
                    &&& self@.place_refused(maker, request, leg, price, now) is None
                    &&& found == self@.ledger.leg_at(request, leg.0 as int)
                    &&& prior == self@.old_quote(maker, request, leg.0 as int)
                },
                Err(error) => Some(error) == (if self@.leg_closed(request, leg, now) is Some {
                    self@.leg_closed(request, leg, now)
                } else if self@.terms_refused(
                    request,
                    leg,
                    price,
                    size,
                    expires_at,
                    now,
                ) is Some {
                    self@.terms_refused(request, leg, price, size, expires_at, now)
                } else {
                    self@.place_refused(maker, request, leg, price, now)
                }),
            },
    {
        proof {
            self.ledger.wf_model();
        }
        let record = match self.ledger.request(request) {
            Some(record) => record,
            None => {
                return Err(EngineError::UnknownRequest);
            },
        };
        if !matches!(record.state(), RequestState::Open) {
            return Err(EngineError::RequestNotOpen);
        }
        if now.0 >= record.deadline().0 {
            return Err(EngineError::RequestDeadlinePassed);
        }
        proof {
            assert(self@.ledger.request_ok(request.index()));
        }
        let found = match record.leg(leg) {
            Some(found) => *found,
            None => {
                return Err(EngineError::UnknownLeg);
            },
        };
        if size.0 < found.size().0 {
            return Err(EngineError::QuoteTooSmall);
        }
        if price.0 > UNIT {
            return Err(EngineError::PriceAboveUnit);
        }
        if expires_at.0 <= now.0 {
            return Err(EngineError::QuoteExpiryInThePast);
        }
        if expires_at.0 - now.0 > self.config.max_quote_ttl.0 {
            return Err(EngineError::QuoteTtlTooLong);
        }
        proof {
            open_leg(self@.ledger, request, leg.0 as int);
            standing_is(self@.ledger, request, leg.0 as int, maker);
        }
        let prior = standing_quote_of(&self.ledger, &found, maker);
        match prior {
            Some(quote) => match self.ledger.quote(quote) {
                Some(standing) => {
                    if standing.is_live_at(now) && price.0 > standing.price().0 {
                        return Err(EngineError::WorseReplacement);
                    }
                },
                None => {},
            },
            None => {
                if found.quote_count() >= self.config.max_quotes_per_leg {
                    return Err(EngineError::LegQuoteLimitReached);
                }
            },
        }
        Ok((found, prior))
    }

    /// Put an admitted quote on its leg in place of its maker's earlier one.
    fn place_quote(&mut self, record: Quote, l: usize, amount: Amount, prior: Option<QuoteIdx>)
        requires
            old(self).wf(),
            record.request is Some,
            old(self)@.ledger.requests.names(record.request->0),
            old(self)@.ledger.requests.of(record.request->0).state is Open,
            l < old(self)@.ledger.requests.of(record.request->0).n_legs,
            record.leg.0 == l,
            record.state is Active,
            record.claim is None,
            record.next_on_leg == Link(NIL),
            record.price.0 <= UNIT,
            record.size.0 >= old(self)@.ledger.leg_at(record.request->0, l as int).size.0,
            amount.0 == stake(
                old(self)@.ledger.leg_at(record.request->0, l as int),
                record.price.0 as int,
            ),
            prior == old(self)@.old_quote(record.maker, record.request->0, l as int),
            prior is None ==> old(self)@.ledger.leg_at(record.request->0, l as int).quote_count
                < MAX_QUOTES_PER_LEG,
            old(self)@.ledger.replacement_refused(prior, record.maker, amount) is None,
        ensures
            final(self).wf(),
            ({
                let cleared = old(self)@.ledger.cleared(record.request->0, l as int, prior);
                final(self)@ == (EngineView {
                    ledger: cleared.quote_opened_reserving(record, amount).linked(
                        record.request->0,
                        l as int,
                        cleared.quotes.next_index(),
                    ),
                    ..old(self)@
                })
            }),
            final(self)@.ledger.requests.names(record.request->0),
            final(self)@.ledger.requests.of(record.request->0).state is Open,
            l < final(self)@.ledger.requests.of(record.request->0).n_legs,
    {
        broadcast use handle_of;

        let request = match record.request {
            Some(request) => request,
            None => {
                return;
            },
        };
        let ghost start = self@.ledger;
        let ghost chain = start.quotes_on(request, l as int);
        proof {
            self.ledger.wf_model();
            open_leg(start, request, l as int);
            standing_is(start, request, l as int, record.maker);
            replacement_is_admissible(start, request, l as int, prior, record, amount);
        }
        match prior {
            Some(quote) => {
                proof {
                    cleared_sound(start, request, l as int, quote);
                }
                free_quote(&mut self.ledger, quote);
                unlink(&mut self.ledger, request, l, quote);
                let mut phase = self.ledger.commit_phase();
                phase.close_quote(quote);
            },
            None => {},
        }
        let ghost cleared = self.ledger@;
        proof {
            assert(cleared == start.cleared(request, l as int, prior));
            assert(cleared.leg_at(request, l as int).size == start.leg_at(request, l as int).size);
            quote_opened_sound(cleared, record, amount);
            inserted_wf(cleared.quotes, record);
        }
        match self.ledger.open_quote_reserving(record, amount) {
            Ok((handle, _)) => {
                let ghost opened = self.ledger@;
                let ghost i = handle.index();
                proof {
                    open_leg(cleared, request, l as int);
                    let before = cleared.quotes_on(request, l as int);
                    assert forall|k: int| 0 <= k < before.len() implies {
                        let j = #[trigger] before[k];
                        opened.quotes.occupied(j) && same_terms(
                            cleared.quotes.at(j),
                            opened.quotes.at(j),
                        )
                    } by {
                        assert(cleared.on_leg(before[k], request, l as int));
                        assert(opened.quotes.occupied(before[k]));
                    }
                    crate::engine::book::leg_kept(cleared, opened, request, l as int);
                    assert(!before.contains(i)) by {
                        if before.contains(i) {
                            let k = before.index_of(i);
                            assert(cleared.on_leg(before[k], request, l as int));
                        }
                    }
                    assert forall|k: int| 0 <= k < before.len() implies opened.quotes.at(
                        #[trigger] before[k],
                    ).maker != record.maker by {
                        assert(opened.quotes.occupied(before[k]));
                        match prior {
                            Some(quote) => {
                                let j = before[k];
                                let from = chain.index_of(j);
                                assert(chain[from] == j);
                            },
                            None => {},
                        }
                    }
                    linked_sound(opened, request, l as int, i);
                }
                link(&mut self.ledger, request, l, handle);
                proof {
                    self.ledger.wf_model();
                }
            },
            Err(_) => {},
        }
    }

    /// A maker quotes one leg, reserving `leg.size * (UNIT - price)`.
    pub(super) fn submit_quote(
        &mut self,
        maker: AccountIdx,
        request: ReqIdx,
        leg: LegId,
        price: Price,
        size: Size,
        expires_at: Ts,
        now: Ts,
        events: &mut EventBuffer,
    ) -> (r: Result<(), EngineError>)
        requires
            old(self).wf(),
            old(events).wf(),
        ensures
            final(self).wf(),
            final(events).wf(),
            final(events).room() == old(events).room(),
            performs(
                old(self)@.on_quote(
                    maker,
                    request,
                    leg,
                    price,
                    size,
                    expires_at,
                    now,
                    headroom_of(old(events)),
                ),
                old(self)@,
                final(self)@,
                old(events)@,
                final(events)@,
                r,
            ),
    {
        proof {
            events.wf_model();
        }
        let ghost start = self@;
        let (found, prior) = match self.check_quote(
            maker,
            request,
            leg,
            price,
            size,
            expires_at,
            now,
        ) {
            Ok(admissible) => admissible,
            Err(error) => {
                return Err(error);
            },
        };
        proof {
            self.ledger.wf_model();
            open_leg(start.ledger, request, leg.0 as int);
            standing_is(start.ledger, request, leg.0 as int, maker);
            let (units, spread) = (found.size.0 as int, UNIT - price.0);
            assert(0 <= units * spread) by (nonlinear_arith)
                requires
                    units >= 0,
                    spread >= 0,
            ;
        }
        let amount = match found.size().maker_contribution(price) {
            Some(amount) => amount,
            None => {
                return Err(EngineError::Ledger(LedgerError::AmountOverflow));
            },
        };
        let needed: usize = match prior {
            Some(_) => 2,
            None => 1,
        };
        match events.headroom(needed) {
            Ok(()) => {},
            Err(_) => {
                return Err(EngineError::EventBufferFull);
            },
        }
        proof {
            match prior {
                Some(quote) => {
                    standing_claim_is_reserved(start.ledger, quote);
                    match start.ledger.quotes.of(quote).claim {
                        Some(claim) => {
                            assert(start.ledger.claim_ok(claim.index()));
                        },
                        None => {},
                    }
                },
                None => {},
            }
        }
        match self.ledger.check_replacement(prior, maker, amount) {
            Ok(()) => {},
            Err(error) => {
                return Err(EngineError::Ledger(error));
            },
        }
        let record = Quote {
            maker,
            request: Some(request),
            leg,
            price,
            size,
            expires_at,
            arrival: self.arrivals,
            state: QuoteState::Active,
            claim: None,
            next_on_leg: Link::nil(),
        };
        let l: usize = leg.0 as usize;
        self.place_quote(record, l, amount, prior);
        self.arrivals = self.arrivals.saturating_add(1);
        let ghost said = events@;
        match prior {
            Some(quote) => {
                events.push(
                    Event::QuoteRejected { quote, maker, reason: QuoteRejectReason::Replaced },
                );
            },
            None => {},
        }
        let ghost told = events@;
        match self.publish(request, l, now) {
            Some(best) => {
                events.push(Event::BestSelectionChanged { request, leg, price: best });
            },
            None => {},
        }
        proof {
            let effect = start.on_quote(
                maker,
                request,
                leg,
                price,
                size,
                expires_at,
                now,
                headroom_of(old(events)),
            );
            assert(events@ =~= said + effect->Ok_0.events);
        }
        Ok(())
    }
}

/// Publishing a price on a leg leaves the book sound.
pub(super) proof fn published_sound(v: LedgerView, request: ReqIdx, l: int, leg: Leg)
    requires
        v.wf(),
        v.sound_book(),
        v.requests.names(request),
        v.requests.of(request).state is Open,
        0 <= l < v.requests.of(request).n_legs,
        leg == (Leg { published: leg.published, ..v.leg_at(request, l) }),
    ensures
        v.with_leg(request, l, leg).wf(),
        v.with_leg(request, l, leg).sound_book(),
{
    broadcast use {handle_of, array_from_holds};

    open_leg(v, request, l);
    let w = v.with_leg(request, l, leg);
    let record = v.requests.of(request);
    request_rewritten_wf(
        v,
        request,
        Request { legs: array_from(record.legs@.update(l, leg)), ..record },
    );
    handle_extensional(request, v.request_handle(request.index()));
    assert forall|r: u32| #[trigger] w.request_ok(r) by {
        assert(v.request_ok(r));
        if v.requests.occupied(r) && v.requests.at(r).state is Open {
            let handle = v.request_handle(r);
            assert forall|m: int| 0 <= m < v.requests.at(r).n_legs implies #[trigger] w.leg_ok(
                handle,
                m,
            ) by {
                assert(v.leg_ok(handle, m));
                let chain = v.quotes_on(handle, m);
                assert forall|k: int| 0 <= k < chain.len() implies {
                    let i = #[trigger] chain[k];
                    w.quotes.occupied(i) && same_terms(v.quotes.at(i), w.quotes.at(i))
                } by {
                    assert(v.on_leg(chain[k], handle, m));
                }
                crate::engine::book::leg_kept(v, w, handle, m);
            }
        }
    }
    assert forall|r: u32| v.requests.occupied(r) implies {
        &&& #[trigger] w.requests.occupied(r)
        &&& w.requests.generation(r) == v.requests.generation(r)
        &&& v.requests.at(r).n_legs <= MAX_LEGS
        &&& crate::engine::steps::same_measure(v.requests.at(r), w.requests.at(r))
        &&& v.requests.at(r).state !is Open ==> w.requests.at(r).state !is Open
    } by {
        assert(v.request_ok(r));
    }
    assert forall|i: u32| #[trigger] w.claim_ok(i) by {
        assert(v.claim_ok(i));
        if w.claims.occupied(i) {
            assert(v.owned(i));
            crate::engine::steps::same_owner_claim_ok(v, w, i);
        }
    }
}

} // verus!
