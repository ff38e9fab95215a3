//! Selection: a pure function over the quotes on a leg.
//!
//! **No stored decision.** The filling set is computed fresh from the live quote set every time
//! it is needed, so it cannot go stale. The order of operations is the design:
//!
//! 1. **Eligibility first.** A quote is eligible only if its price is at or better than the
//!    leg's limit. This is the **sole** enforcement point for the limit price; nothing is
//!    refused at *admission* on price, which is what keeps the limit private.
//! 2. **Rank by price ascending.** The price is always the price of the side the requester is
//!    buying, so lowest-is-best holds for `Yes` and `No` legs alike.
//! 3. **Tiebreak by arrival.** It denies a maker any gain from spamming identical quotes.
//! 4. **Full size or nothing.** No aggregation across makers on one leg.
//!
//! The quotes on a leg are threaded through the quote slab: the leg names the first and each
//! quote names the next. [`leg_chain`] is the sequence of slots those links spell.

use crate::account::{AccountIdx, Link};
use crate::ledger::Ledger;
use crate::quote::{Quote, QuoteIdx, QuoteState};
use crate::request::{Leg, Selection};
use crate::slab::{handle_of, Handle, SlabView};
use crate::types::Ts;
use vstd::prelude::*;

verus! {

/// Why a leg has no fill.
///
/// Four causes, four variants. A single `NoQuote` would tell a requester that a leg failed and
/// nothing about whether to wait, re-price, or give up.
#[derive(Clone, Copy, Debug, PartialEq, Eq, Structural)]
pub enum NoQuoteReason {
    /// No maker ever quoted this leg.
    NoQuotes,
    /// Makers quoted, and every quote is dead at `now`.
    AllExpired,
    /// Live quotes of full size exist and every one is priced outside the leg's limit. Makers
    /// responded, their quotes are live and **reserving capital**, and they are excluded at
    /// selection rather than at admission.
    OutsideLimit,
    /// Live quotes exist and none covers the leg's full size. Admission refuses an undersized
    /// quote, so no command sequence leads here; the variant names that closure.
    SizeTooSmall,
}

// ───────────────────────────── the quotes on a leg ─────────────────────────────

/// The link that leads to position `k` of a walk from `head` along `chain`.
pub open spec fn link_to(quotes: SlabView<Quote>, head: Link, chain: Seq<u32>, k: int) -> Link {
    if k <= 0 {
        head
    } else {
        quotes.at(chain[k - 1]).next_on_leg
    }
}

/// `link` leads to a live quote.
pub open spec fn resolves(quotes: SlabView<Quote>, link: Link) -> bool {
    link.target() is Some && quotes.occupied(link.0)
}

/// Position `k` of `chain` is where the walk from `head` is after `k` steps.
pub open spec fn steps(quotes: SlabView<Quote>, head: Link, chain: Seq<u32>, k: int) -> bool {
    let link = link_to(quotes, head, chain, k);
    resolves(quotes, link) && link == Link(chain[k])
}

/// `chain` is the whole walk from `head`: every step resolves and the last leads nowhere.
pub open spec fn walk(quotes: SlabView<Quote>, head: Link, chain: Seq<u32>) -> bool {
    &&& forall|k: int| 0 <= k < chain.len() ==> #[trigger] steps(quotes, head, chain, k)
    &&& !resolves(quotes, link_to(quotes, head, chain, chain.len() as int))
}

/// The walk from `head` comes to an end.
pub open spec fn walk_ends(quotes: SlabView<Quote>, head: Link) -> bool {
    exists|chain: Seq<u32>| walk(quotes, head, chain)
}

/// The slots of the quotes on a leg whose first link is `head`, in chain order.
pub open spec fn leg_chain(quotes: SlabView<Quote>, head: Link) -> Seq<u32> {
    choose|chain: Seq<u32>| walk(quotes, head, chain)
}

proof fn walks_agree(quotes: SlabView<Quote>, head: Link, a: Seq<u32>, b: Seq<u32>, k: int)
    requires
        walk(quotes, head, a),
        walk(quotes, head, b),
        0 <= k < a.len(),
    ensures
        k < b.len(),
        a[k] == b[k],
    decreases k,
{
    assert(steps(quotes, head, a, k));
    if k > 0 {
        walks_agree(quotes, head, a, b, k - 1);
    }
    assert(link_to(quotes, head, a, k) == link_to(quotes, head, b, k));
    if k < b.len() {
        assert(steps(quotes, head, b, k));
    }
}

/// The links spell one sequence: a walk is the leg's chain.
pub proof fn walk_is_chain(quotes: SlabView<Quote>, head: Link, chain: Seq<u32>)
    requires
        walk(quotes, head, chain),
    ensures
        leg_chain(quotes, head) == chain,
{
    let other = leg_chain(quotes, head);
    assert(walk(quotes, head, other));
    assert forall|k: int| 0 <= k < chain.len() implies k < other.len() && chain[k]
        == other[k] by {
        walks_agree(quotes, head, chain, other, k);
    }
    if other.len() > chain.len() {
        walks_agree(quotes, head, other, chain, chain.len() as int);
    }
    if chain.len() > other.len() {
        walks_agree(quotes, head, chain, other, other.len() as int);
    }
    assert(other =~= chain);
}

/// The chain of a leg whose walk ends is that walk.
pub proof fn chain_is_walk(quotes: SlabView<Quote>, head: Link)
    requires
        walk_ends(quotes, head),
    ensures
        walk(quotes, head, leg_chain(quotes, head)),
{
}

// ───────────────────────────── what selection picks ─────────────────────────────

/// The quote in slot `i` may fill `leg` at `now`: live, of full size, at or better than the
/// limit.
pub open spec fn eligible(quotes: SlabView<Quote>, leg: Leg, now: Ts, i: u32) -> bool {
    let quote = quotes.at(i);
    quote.live_at(now) && quote.size.0 >= leg.size.0 && quote.price.0 <= leg.limit.0
}

/// The quote in slot `i` is strictly preferred to the one in slot `j`: a lower price, or the
/// same price and an earlier arrival.
pub open spec fn beats(quotes: SlabView<Quote>, i: u32, j: u32) -> bool {
    let (a, b) = (quotes.at(i), quotes.at(j));
    a.price.0 < b.price.0 || (a.price.0 == b.price.0 && a.arrival < b.arrival)
}

/// Position `k` of `chain` is the pick: eligible, beating every eligible quote before it, and
/// beaten by none after it.
pub open spec fn picked(
    quotes: SlabView<Quote>,
    leg: Leg,
    now: Ts,
    chain: Seq<u32>,
    k: int,
) -> bool {
    &&& 0 <= k < chain.len()
    &&& eligible(quotes, leg, now, chain[k])
    &&& forall|j: int|
        0 <= j < k && eligible(quotes, leg, now, #[trigger] chain[j]) ==> beats(
            quotes,
            chain[k],
            chain[j],
        )
    &&& forall|j: int|
        k < j < chain.len() && eligible(quotes, leg, now, #[trigger] chain[j]) ==> !beats(
            quotes,
            chain[j],
            chain[k],
        )
}

/// Some quote on `chain` is live at `now`.
pub open spec fn some_live(quotes: SlabView<Quote>, now: Ts, chain: Seq<u32>) -> bool {
    exists|k: int| 0 <= k < chain.len() && quotes.at(#[trigger] chain[k]).live_at(now)
}

/// Some quote on `chain` is live at `now` and covers the leg's full size.
pub open spec fn some_of_size(
    quotes: SlabView<Quote>,
    leg: Leg,
    now: Ts,
    chain: Seq<u32>,
) -> bool {
    exists|k: int|
        0 <= k < chain.len() && quotes.at(#[trigger] chain[k]).live_at(now) && quotes.at(
            chain[k],
        ).size.0 >= leg.size.0
}

/// The best eligible live quote on `leg`, or why there is none.
pub open spec fn selection(quotes: SlabView<Quote>, leg: Leg, now: Ts) -> Result<
    Selection,
    NoQuoteReason,
> {
    let chain = leg_chain(quotes, leg.quotes_head);
    if exists|k: int| picked(quotes, leg, now, chain, k) {
        let i = chain[choose|k: int| picked(quotes, leg, now, chain, k)];
        Ok(Selection { quote: Handle::of(i, quotes.generation(i)), price: quotes.at(i).price })
    } else if chain.len() == 0 {
        Err(NoQuoteReason::NoQuotes)
    } else if !some_live(quotes, now, chain) {
        Err(NoQuoteReason::AllExpired)
    } else if some_of_size(quotes, leg, now, chain) {
        Err(NoQuoteReason::OutsideLimit)
    } else {
        Err(NoQuoteReason::SizeTooSmall)
    }
}

/// At most one position is the pick.
pub proof fn pick_is_unique(
    quotes: SlabView<Quote>,
    leg: Leg,
    now: Ts,
    chain: Seq<u32>,
    a: int,
    b: int,
)
    requires
        picked(quotes, leg, now, chain, a),
        picked(quotes, leg, now, chain, b),
    ensures
        a == b,
{
    if a < b {
        assert(beats(quotes, chain[b], chain[a]));
        assert(!beats(quotes, chain[b], chain[a]));
    } else if b < a {
        assert(beats(quotes, chain[a], chain[b]));
        assert(!beats(quotes, chain[a], chain[b]));
    }
}

proof fn pick_of_prefix(
    quotes: SlabView<Quote>,
    leg: Leg,
    now: Ts,
    chain: Seq<u32>,
    n: int,
) -> (k: int)
    requires
        0 <= n <= chain.len(),
        exists|j: int| 0 <= j < n && eligible(quotes, leg, now, #[trigger] chain[j]),
    ensures
        picked(quotes, leg, now, chain.take(n), k),
    decreases n,
{
    let last = n - 1;
    let before = chain.take(last);
    let whole = chain.take(n);
    if exists|j: int| 0 <= j < last && eligible(quotes, leg, now, #[trigger] chain[j]) {
        let k = pick_of_prefix(quotes, leg, now, chain, last);
        assert(forall|j: int| 0 <= j < last ==> before[j] == #[trigger] whole[j]);
        if eligible(quotes, leg, now, chain[last]) && beats(quotes, chain[last], chain[k]) {
            assert forall|j: int|
                0 <= j < last && eligible(quotes, leg, now, #[trigger] whole[j]) implies beats(
                quotes,
                whole[last],
                whole[j],
            ) by {
                assert(before[j] == whole[j]);
                if j < k {
                    assert(beats(quotes, before[k], before[j]));
                } else if j > k {
                    assert(!beats(quotes, before[j], before[k]));
                }
            }
            last
        } else {
            assert forall|j: int|
                k < j < n && eligible(quotes, leg, now, #[trigger] whole[j]) implies !beats(
                quotes,
                whole[j],
                whole[k],
            ) by {
                if j < last {
                    assert(before[j] == whole[j]);
                }
            }
            k
        }
    } else {
        last
    }
}

/// A leg with an eligible quote has a fill, and a fill is always an eligible quote of the leg
/// than which no other eligible quote is strictly better. In particular **no fill is ever
/// priced above the leg's limit**.
pub proof fn selection_is_best(quotes: SlabView<Quote>, leg: Leg, now: Ts)
    ensures
        selection(quotes, leg, now) is Ok <==> (exists|k: int|
            0 <= k < leg_chain(quotes, leg.quotes_head).len() && eligible(
                quotes,
                leg,
                now,
                #[trigger] leg_chain(quotes, leg.quotes_head)[k],
            )),
        selection(quotes, leg, now) matches Ok(found) ==> {
            let chain = leg_chain(quotes, leg.quotes_head);
            let i = found.quote.index();
            &&& chain.contains(i)
            &&& eligible(quotes, leg, now, i)
            &&& found.quote.generation() == quotes.generation(i)
            &&& found.price == quotes.at(i).price
            &&& found.price.0 <= leg.limit.0
            &&& forall|j: int|
                0 <= j < chain.len() && eligible(quotes, leg, now, #[trigger] chain[j]) ==> !beats(
                    quotes,
                    chain[j],
                    i,
                )
        },
{
    broadcast use handle_of;

    let chain = leg_chain(quotes, leg.quotes_head);
    if exists|k: int| 0 <= k < chain.len() && eligible(quotes, leg, now, #[trigger] chain[k]) {
        let k = pick_of_prefix(quotes, leg, now, chain, chain.len() as int);
        assert(chain.take(chain.len() as int) =~= chain);
        assert(picked(quotes, leg, now, chain, k));
    }
    if exists|k: int| picked(quotes, leg, now, chain, k) {
        let k = choose|k: int| picked(quotes, leg, now, chain, k);
        assert(eligible(quotes, leg, now, chain[k]));
        assert(chain.contains(chain[k]));
        assert forall|j: int|
            0 <= j < chain.len() && eligible(quotes, leg, now, #[trigger] chain[j]) implies !beats(
            quotes,
            chain[j],
            chain[k],
        ) by {
            if j < k {
                assert(beats(quotes, chain[k], chain[j]));
            }
        }
    }
}

/// Whether `quote` may fill `leg` at `now`, in plain terms.
pub open spec fn may_fill(quote: Quote, leg: Leg, now: Ts) -> bool {
    &&& quote.state == QuoteState::Active
    &&& now.0 < quote.expires_at.0
    &&& quote.size.0 >= leg.size.0
    &&& quote.price.0 <= leg.limit.0
}

/// **The lowest price wins, and of equal prices the earliest arrival, whatever else they differ
/// in**: a leg has a fill exactly where some quote on it is active, unexpired, of full size and
/// within the limit; the fill is such a quote of that leg at its own price; and every other such
/// quote is dearer, or just as dear and arrived no earlier.
pub proof fn the_cheapest_then_earliest_quote_wins(quotes: SlabView<Quote>, leg: Leg, now: Ts)
    ensures
        ({
            let chain = leg_chain(quotes, leg.quotes_head);
            let found = selection(quotes, leg, now);
            &&& found is Ok <==> exists|k: int|
                0 <= k < chain.len() && may_fill(quotes.at(#[trigger] chain[k]), leg, now)
            &&& found is Ok ==> {
                let won = quotes.at(found->Ok_0.quote.index());
                &&& chain.contains(found->Ok_0.quote.index())
                &&& found->Ok_0.quote.generation() == quotes.generation(
                    found->Ok_0.quote.index(),
                )
                &&& found->Ok_0.price == won.price
                &&& may_fill(won, leg, now)
                &&& forall|k: int|
                    0 <= k < chain.len() && may_fill(quotes.at(#[trigger] chain[k]), leg, now) ==> {
                        let rival = quotes.at(chain[k]);
                        won.price.0 < rival.price.0 || (won.price.0 == rival.price.0 && won.arrival
                            <= rival.arrival)
                    }
            }
        }),
{
    selection_is_best(quotes, leg, now);
    let chain = leg_chain(quotes, leg.quotes_head);
    assert forall|k: int| 0 <= k < chain.len() implies may_fill(
        quotes.at(#[trigger] chain[k]),
        leg,
        now,
    ) == eligible(quotes, leg, now, chain[k]) by {}
    if selection(quotes, leg, now) is Ok {
        let i = selection(quotes, leg, now)->Ok_0.quote.index();
        assert forall|k: int|
            0 <= k < chain.len() && may_fill(quotes.at(#[trigger] chain[k]), leg, now) implies {
            let rival = quotes.at(chain[k]);
            let won = quotes.at(i);
            won.price.0 < rival.price.0 || (won.price.0 == rival.price.0 && won.arrival
                <= rival.arrival)
        } by {
            assert(eligible(quotes, leg, now, chain[k]));
            assert(!beats(quotes, chain[k], i));
        }
    }
}

/// **What is best on a leg, among the quotes that may fill it**: one of them there is, at its own
/// price, exactly where there are any; each of the others is dearer, or just as dear and arrived no
/// earlier.
pub proof fn the_best_on_a_leg_is_the_cheapest_then_earliest(
    ledger: &Ledger,
    leg: &Leg,
    now: Ts,
    r: Result<Selection, NoQuoteReason>,
)
    requires
        call_ensures(best_on_leg, (ledger, leg, now), r),
    ensures
        ({
            let quotes = ledger@.quotes;
            let chain = leg_chain(quotes, leg.quotes_head);
            match r {
                Ok(best) => {
                    let won = quotes.at(best.quote.index());
                    &&& chain.contains(best.quote.index())
                    &&& best.quote.generation() == quotes.generation(best.quote.index())
                    &&& best.price == won.price
                    &&& may_fill(won, *leg, now)
                    &&& forall|k: int|
                        0 <= k < chain.len() && may_fill(quotes.at(#[trigger] chain[k]), *leg, now)
                            ==> {
                            let rival = quotes.at(chain[k]);
                            won.price.0 < rival.price.0 || (won.price.0 == rival.price.0
                                && won.arrival <= rival.arrival)
                        }
                },
                Err(_) => forall|k: int|
                    0 <= k < chain.len() ==> !may_fill(quotes.at(#[trigger] chain[k]), *leg, now),
            }
        }),
{
    the_cheapest_then_earliest_quote_wins(ledger@.quotes, *leg, now);
}

/// **Why a leg has no fill**: nobody quotes it; or all that quote it are dead; or some live one is
/// of full size, and all of those are dearer than the limit; or live ones there are, and none of
/// full size.
pub proof fn a_leg_without_a_fill_says_why(quotes: SlabView<Quote>, leg: Leg, now: Ts)
    ensures
        ({
            let chain = leg_chain(quotes, leg.quotes_head);
            let live = |k: int|
                quotes.at(chain[k]).state == QuoteState::Active && now.0 < quotes.at(
                    chain[k],
                ).expires_at.0;
            let full = |k: int| quotes.at(chain[k]).size.0 >= leg.size.0;
            match selection(quotes, leg, now) {
                Ok(_) => true,
                Err(NoQuoteReason::NoQuotes) => chain.len() == 0,
                Err(NoQuoteReason::AllExpired) => chain.len() > 0 && forall|k: int|
                    0 <= k < chain.len() ==> !#[trigger] live(k),
                Err(NoQuoteReason::OutsideLimit) => {
                    &&& exists|k: int| 0 <= k < chain.len() && #[trigger] live(k) && full(k)
                    &&& forall|k: int|
                        0 <= k < chain.len() && #[trigger] live(k) && full(k) ==> quotes.at(
                            chain[k],
                        ).price.0 > leg.limit.0
                },
                Err(NoQuoteReason::SizeTooSmall) => {
                    &&& exists|k: int| 0 <= k < chain.len() && #[trigger] live(k)
                    &&& forall|k: int| 0 <= k < chain.len() && #[trigger] live(k) ==> !full(k)
                },
            }
        }),
{
    selection_is_best(quotes, leg, now);
    let chain = leg_chain(quotes, leg.quotes_head);
    let live = |k: int|
        quotes.at(chain[k]).state == QuoteState::Active && now.0 < quotes.at(
            chain[k],
        ).expires_at.0;
    let full = |k: int| quotes.at(chain[k]).size.0 >= leg.size.0;
    assert forall|k: int| 0 <= k < chain.len() implies #[trigger] live(k) == quotes.at(
        chain[k],
    ).live_at(now) by {}
    match selection(quotes, leg, now) {
        Err(NoQuoteReason::AllExpired) => {
            assert forall|k: int| 0 <= k < chain.len() implies !#[trigger] live(k) by {
                assert(!quotes.at(chain[k]).live_at(now));
            }
        },
        Err(NoQuoteReason::OutsideLimit) => {
            let k = choose|k: int|
                0 <= k < chain.len() && quotes.at(#[trigger] chain[k]).live_at(now) && quotes.at(
                    chain[k],
                ).size.0 >= leg.size.0;
            assert(live(k) && full(k));
            assert forall|k: int| 0 <= k < chain.len() && #[trigger] live(k) && full(k) implies
                quotes.at(chain[k]).price.0 > leg.limit.0 by {
                assert(!eligible(quotes, leg, now, chain[k]));
            }
        },
        Err(NoQuoteReason::SizeTooSmall) => {
            let k = choose|k: int|
                0 <= k < chain.len() && quotes.at(#[trigger] chain[k]).live_at(now);
            assert(live(k));
            assert forall|k: int| 0 <= k < chain.len() && #[trigger] live(k) implies !full(k) by {
                assert(quotes.at(chain[k]).live_at(now));
            }
        },
        _ => {},
    }
}

/// The best eligible live quote on `leg`, or why there is none.
///
/// Pure: reads state, mutates nothing, and takes the single sampled `now` so that every leg of
/// a multi-leg accept agrees about what time it is.
pub fn best_on_leg(ledger: &Ledger, leg: &Leg, now: Ts) -> (r: Result<Selection, NoQuoteReason>)
    requires
        ledger.intact(),
        walk_ends(ledger@.quotes, leg.quotes_head),
    ensures
        r == selection(ledger@.quotes, *leg, now),
{
    let ghost quotes = ledger@.quotes;
    let ghost chain = leg_chain(quotes, leg.quotes_head);
    proof {
        chain_is_walk(quotes, leg.quotes_head);
    }
    let mut best: Option<Selection> = None;
    let mut best_arrival: u64 = u64::MAX;
    let mut saw_quote = false;
    let mut saw_live = false;
    let mut saw_big_enough = false;
    let mut cursor = leg.quotes_head;
    let ghost mut k: int = 0;
    let ghost mut b: int = 0;
    let mut walking = true;
    while walking
        invariant
            ledger.intact(),
            quotes == ledger@.quotes,
            chain == leg_chain(quotes, leg.quotes_head),
            walk(quotes, leg.quotes_head, chain),
            0 <= k <= chain.len(),
            !walking ==> k == chain.len(),
            cursor == link_to(quotes, leg.quotes_head, chain, k),
            saw_quote == (k > 0),
            saw_live == some_live(quotes, now, chain.take(k)),
            saw_big_enough == some_of_size(quotes, *leg, now, chain.take(k)),
            match best {
                Some(found) => {
                    &&& picked(quotes, *leg, now, chain.take(k), b)
                    &&& 0 <= b < k
                    &&& found.quote == Handle::<Quote>::of(chain[b], quotes.generation(chain[b]))
                    &&& found.price == quotes.at(chain[b]).price
                    &&& best_arrival == quotes.at(chain[b]).arrival
                },
                None => forall|j: int|
                    0 <= j < k ==> !eligible(quotes, *leg, now, #[trigger] chain[j]),
            },
        decreases chain.len() - k + (if walking {
            1int
        } else {
            0int
        }),
    {
        proof {
            if k < chain.len() {
                assert(steps(quotes, leg.quotes_head, chain, k));
            }
        }
        match cursor.index() {
            None => {
                walking = false;
            },
            Some(index) => match ledger.quote_handle_at(index) {
                None => {
                    walking = false;
                },
                Some(handle) => {
                    proof {
                        handle_of::<Quote>(index, quotes.generation(index));
                        assert(chain[k] == index);
                    }
                    match ledger.quote(handle) {
                        None => {
                            walking = false;
                        },
                        Some(quote) => {
                            let ghost before = chain.take(k);
                            let ghost after = chain.take(k + 1);
                            proof {
                                assert(forall|j: int| 0 <= j < k ==> before[j] == #[trigger] after[j]);
                                assert(forall|j: int| 0 <= j < k ==> #[trigger] before[j] == after[j]);
                                assert(after[k] == index);
                                assert(*quote == quotes.at(index));
                                if some_live(quotes, now, before) {
                                    let w = choose|w: int|
                                        0 <= w < before.len() && quotes.at(
                                            #[trigger] before[w],
                                        ).live_at(now);
                                    assert(quotes.at(after[w]).live_at(now));
                                }
                                if some_of_size(quotes, *leg, now, before) {
                                    let w = choose|w: int|
                                        0 <= w < before.len() && quotes.at(
                                            #[trigger] before[w],
                                        ).live_at(now) && quotes.at(before[w]).size.0 >= leg.size.0;
                                    assert(quotes.at(after[w]).live_at(now));
                                }
                            }
                            cursor = quote.next_on_leg;
                            saw_quote = true;
                            if quote.is_live_at(now) {
                                proof {
                                    assert(quotes.at(after[k]).live_at(now));
                                    assert(some_live(quotes, now, after));
                                }
                                saw_live = true;
                                if quote.size().0 >= leg.size().0 {
                                    proof {
                                        assert(some_of_size(quotes, *leg, now, after));
                                    }
                                    saw_big_enough = true;
                                    if quote.price().0 <= leg.limit().0 {
                                        let better = match best {
                                            None => true,
                                            Some(current) => quote.price().0 < current.price.0 || (
                                            quote.price().0 == current.price.0 && quote.arrival()
                                                < best_arrival),
                                        };
                                        if better {
                                            proof {
                                                if best is Some {
                                                    assert forall|j: int|
                                                        0 <= j < k && eligible(
                                                            quotes,
                                                            *leg,
                                                            now,
                                                            #[trigger] after[j],
                                                        ) implies beats(
                                                        quotes,
                                                        after[k],
                                                        after[j],
                                                    ) by {
                                                        assert(before[j] == after[j]);
                                                        if j < b {
                                                            assert(beats(
                                                                quotes,
                                                                before[b],
                                                                before[j],
                                                            ));
                                                        } else if j > b {
                                                            assert(!beats(
                                                                quotes,
                                                                before[j],
                                                                before[b],
                                                            ));
                                                        }
                                                    }
                                                } else {
                                                    assert forall|j: int|
                                                        0 <= j < k implies !eligible(
                                                        quotes,
                                                        *leg,
                                                        now,
                                                        #[trigger] after[j],
                                                    ) by {
                                                        assert(chain[j] == after[j]);
                                                    }
                                                }
                                                b = k;
                                                assert(picked(quotes, *leg, now, after, k));
                                            }
                                            best =
                                            Some(
                                                Selection { quote: handle, price: quote.price() },
                                            );
                                            best_arrival = quote.arrival();
                                        }
                                    }
                                }
                            }
                            proof {
                                if best is Some && b < k {
                                    assert(picked(quotes, *leg, now, before, b));
                                    assert forall|j: int|
                                        b < j < k + 1 && eligible(
                                            quotes,
                                            *leg,
                                            now,
                                            #[trigger] after[j],
                                        ) implies !beats(quotes, after[j], after[b]) by {
                                        if j < k {
                                            assert(before[j] == after[j]);
                                        }
                                    }
                                    assert(picked(quotes, *leg, now, after, b));
                                }
                                k = k + 1;
                            }
                        },
                    }
                },
            },
        }
    }
    proof {
        assert(chain.take(k) =~= chain);
        if best is Some {
            let c = choose|c: int| picked(quotes, *leg, now, chain, c);
            pick_is_unique(quotes, *leg, now, chain, b, c);
        }
    }
    match best {
        Some(found) => Ok(found),
        None => if !saw_quote {
            Err(NoQuoteReason::NoQuotes)
        } else if !saw_live {
            Err(NoQuoteReason::AllExpired)
        } else if saw_big_enough {
            Err(NoQuoteReason::OutsideLimit)
        } else {
            Err(NoQuoteReason::SizeTooSmall)
        },
    }
}

// ───────────────────────────── the maker's own quote ─────────────────────────────

/// The quote in slot `i` is a standing quote of `maker`.
pub open spec fn stands_for(quotes: SlabView<Quote>, maker: AccountIdx, i: u32) -> bool {
    quotes.at(i).maker == maker && quotes.at(i).state == QuoteState::Active
}

/// Position `k` of `chain` is the first standing quote of `maker`.
pub open spec fn first_standing(
    quotes: SlabView<Quote>,
    maker: AccountIdx,
    chain: Seq<u32>,
    k: int,
) -> bool {
    &&& 0 <= k < chain.len()
    &&& stands_for(quotes, maker, chain[k])
    &&& forall|j: int| 0 <= j < k ==> !stands_for(quotes, maker, #[trigger] chain[j])
}

/// The quote `maker` already has standing on a leg whose first link is `head`, if any.
pub open spec fn standing(quotes: SlabView<Quote>, head: Link, maker: AccountIdx) -> Option<
    QuoteIdx,
> {
    let chain = leg_chain(quotes, head);
    if exists|k: int| first_standing(quotes, maker, chain, k) {
        let i = chain[choose|k: int| first_standing(quotes, maker, chain, k)];
        Some(Handle::of(i, quotes.generation(i)))
    } else {
        None
    }
}

/// **A maker's standing quote is an active quote of theirs on the leg**, and there is none only
/// where they have none.
pub proof fn a_standing_quote_is_the_makers_own(
    quotes: SlabView<Quote>,
    head: Link,
    maker: AccountIdx,
)
    ensures
        ({
            let chain = leg_chain(quotes, head);
            let own = |k: int|
                quotes.at(chain[k]).maker == maker && quotes.at(chain[k]).state
                    == QuoteState::Active;
            match standing(quotes, head, maker) {
                Some(quote) => exists|k: int|
                    {
                        &&& 0 <= k < chain.len()
                        &&& #[trigger] own(k)
                        &&& quote.index() == chain[k]
                        &&& quote.generation() == quotes.generation(chain[k])
                        &&& forall|j: int| 0 <= j < k ==> !#[trigger] own(j)
                    },
                None => forall|k: int| 0 <= k < chain.len() ==> !#[trigger] own(k),
            }
        }),
{
    broadcast use handle_of;

    let chain = leg_chain(quotes, head);
    let own = |k: int|
        quotes.at(chain[k]).maker == maker && quotes.at(chain[k]).state == QuoteState::Active;
    assert forall|k: int| 0 <= k < chain.len() implies #[trigger] own(k) == stands_for(
        quotes,
        maker,
        chain[k],
    ) by {}
    if exists|k: int| first_standing(quotes, maker, chain, k) {
        let k = choose|k: int| first_standing(quotes, maker, chain, k);
        assert(own(k));
        assert forall|j: int| 0 <= j < k implies !#[trigger] own(j) by {
            assert(!stands_for(quotes, maker, chain[j]));
        }
    } else {
        assert forall|k: int| 0 <= k < chain.len() implies !#[trigger] own(k) by {
            if own(k) {
                let first = first_own(quotes, maker, chain, k);
                assert(first_standing(quotes, maker, chain, first));
            }
        }
    }
}

proof fn first_own(quotes: SlabView<Quote>, maker: AccountIdx, chain: Seq<u32>, k: int) -> (first:
    int)
    requires
        0 <= k < chain.len(),
        stands_for(quotes, maker, chain[k]),
    ensures
        first_standing(quotes, maker, chain, first),
    decreases k,
{
    if exists|j: int| 0 <= j < k && stands_for(quotes, maker, #[trigger] chain[j]) {
        let j = choose|j: int| 0 <= j < k && stands_for(quotes, maker, #[trigger] chain[j]);
        first_own(quotes, maker, chain, j)
    } else {
        k
    }
}

/// The standing quote this maker already has on `leg`, if any.
///
/// One quote per maker per leg. A new quote replaces it, but only if the new price is at least
/// as good for the requester, or replacement becomes a cancel primitive in disguise: requote at
/// `price == UNIT`, which reserves zero, and the maker has withdrawn liquidity they promised was
/// irrevocable.
pub fn standing_quote_of(ledger: &Ledger, leg: &Leg, maker: AccountIdx) -> (r: Option<QuoteIdx>)
    requires
        ledger.intact(),
        walk_ends(ledger@.quotes, leg.quotes_head),
    ensures
        r == standing(ledger@.quotes, leg.quotes_head, maker),
{
    let ghost quotes = ledger@.quotes;
    let ghost chain = leg_chain(quotes, leg.quotes_head);
    proof {
        chain_is_walk(quotes, leg.quotes_head);
    }
    let mut cursor = leg.quotes_head;
    let ghost mut k: int = 0;
    loop
        invariant
            ledger.intact(),
            quotes == ledger@.quotes,
            chain == leg_chain(quotes, leg.quotes_head),
            walk(quotes, leg.quotes_head, chain),
            0 <= k <= chain.len(),
            cursor == link_to(quotes, leg.quotes_head, chain, k),
            forall|j: int| 0 <= j < k ==> !stands_for(quotes, maker, #[trigger] chain[j]),
        decreases chain.len() - k,
    {
        proof {
            if k < chain.len() {
                assert(steps(quotes, leg.quotes_head, chain, k));
            }
            if k == chain.len() && exists|j: int| first_standing(quotes, maker, chain, j) {
                let j = choose|j: int| first_standing(quotes, maker, chain, j);
                assert(!stands_for(quotes, maker, chain[j]));
            }
        }
        let index: u32 = match cursor.index() {
            Some(index) => index,
            None => {
                return None;
            },
        };
        let handle = match ledger.quote_handle_at(index) {
            Some(handle) => handle,
            None => {
                return None;
            },
        };
        proof {
            handle_of::<Quote>(index, quotes.generation(index));
        }
        match ledger.quote(handle) {
            Some(quote) => {
                if quote.maker() == maker && matches!(quote.state(), QuoteState::Active) {
                    proof {
                        assert(first_standing(quotes, maker, chain, k));
                        let j = choose|j: int| first_standing(quotes, maker, chain, j);
                        if j < k {
                            assert(!stands_for(quotes, maker, chain[j]));
                        }
                        if k < j {
                            assert(!stands_for(quotes, maker, chain[k]));
                        }
                    }
                    return Some(handle);
                }
                cursor = quote.next_on_leg;
                proof {
                    k = k + 1;
                }
            },
            None => {
                return None;
            },
        }
    }
}

/// The handles of the quotes in the slots of `chain`.
pub open spec fn handles(quotes: SlabView<Quote>, chain: Seq<u32>) -> Seq<QuoteIdx> {
    Seq::new(chain.len(), |k: int| Handle::of(chain[k], quotes.generation(chain[k])))
}

/// Every quote on `leg`, oldest chain position first, as handles.
///
/// Used by the commit phase, which must visit each of them exactly once.
pub fn walk_leg(ledger: &Ledger, leg: &Leg) -> (r: Vec<QuoteIdx>)
    requires
        ledger.intact(),
        walk_ends(ledger@.quotes, leg.quotes_head),
    ensures
        r@ == handles(ledger@.quotes, leg_chain(ledger@.quotes, leg.quotes_head)),
{
    let ghost quotes = ledger@.quotes;
    let ghost chain = leg_chain(quotes, leg.quotes_head);
    proof {
        chain_is_walk(quotes, leg.quotes_head);
    }
    let mut visited: Vec<QuoteIdx> = Vec::new();
    let mut cursor = leg.quotes_head;
    loop
        invariant
            ledger.intact(),
            quotes == ledger@.quotes,
            chain == leg_chain(quotes, leg.quotes_head),
            walk(quotes, leg.quotes_head, chain),
            visited@.len() <= chain.len(),
            visited@ == handles(quotes, chain.take(visited@.len() as int)),
            cursor == link_to(quotes, leg.quotes_head, chain, visited@.len() as int),
        decreases chain.len() - visited@.len(),
    {
        let ghost k = visited@.len() as int;
        proof {
            if k < chain.len() {
                assert(steps(quotes, leg.quotes_head, chain, k));
            } else {
                assert(chain.take(k) =~= chain);
            }
        }
        let index: u32 = match cursor.index() {
            Some(index) => index,
            None => {
                return visited;
            },
        };
        let handle = match ledger.quote_handle_at(index) {
            Some(handle) => handle,
            None => {
                return visited;
            },
        };
        proof {
            handle_of::<Quote>(index, quotes.generation(index));
        }
        match ledger.quote(handle) {
            Some(quote) => {
                cursor = quote.next_on_leg;
                visited.push(handle);
                proof {
                    assert(visited@ =~= handles(quotes, chain.take(k + 1)));
                }
            },
            None => {
                return visited;
            },
        }
    }
}

} // verus!
