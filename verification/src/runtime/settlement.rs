//! The settlement adapter: the one path from the engine to custody.
//!
//! The engine emits [`Event::SubmitIntent`]; the adapter turns it into a [`Bundle`] and hands
//! that to custody. The conversion is deliberately a *conversion* and not a shared type: making
//! the two one type would be the two systems sharing a definition, which is the first step to
//! sharing memory.

use crate::arrays::{array_from, array_from_holds, array_is};
use crate::chain::bundle::{Bundle, BundleLeg};
use crate::config::MAX_LEGS;
use crate::event::{Event, IntentLeg};
use vstd::prelude::*;

pub mod laws;

verus! {

/// One leg of an intent, as custody sees it.
pub open spec fn converted(leg: IntentLeg) -> BundleLeg {
    BundleLeg {
        contract: leg.contract,
        side: leg.side,
        size: leg.size,
        maker: leg.maker,
        fill_price: leg.fill_price,
        quote_expiry: leg.quote_expiry,
    }
}

/// The settlement transaction an event calls for, if it calls for one.
pub open spec fn bundle_of(event: Event) -> Option<Bundle> {
    match event {
        Event::SubmitIntent { nonce, requester, legs, n_legs, .. } => Some(
            Bundle {
                nonce,
                requester,
                legs: array_from(
                    Seq::new(
                        MAX_LEGS as nat,
                        |k: int|
                            if k < n_legs {
                                converted(legs@[k])
                            } else {
                                BundleLeg::blank()
                            },
                    ),
                ),
                n_legs,
            },
        ),
        _ => None,
    }
}

/// Turn a `SubmitIntent` into a settlement transaction.
///
/// Returns `None` for every other event: the adapter subscribes to the whole stream and picks out
/// the one thing custody is entitled to see.
pub fn bundle_from(event: &Event) -> (r: Option<Bundle>)
    ensures
        r == bundle_of(*event),
{
    match event {
        Event::SubmitIntent { nonce, requester, legs, n_legs, .. } => {
            let mut converted_legs: [BundleLeg; MAX_LEGS] = [BundleLeg::default();MAX_LEGS];
            let n: usize = *n_legs as usize;
            let mut index: usize = 0;
            while index < MAX_LEGS && index < n
                invariant
                    index <= MAX_LEGS,
                    index <= n,
                    forall|k: int|
                        0 <= k < MAX_LEGS ==> #[trigger] converted_legs@[k] == (if k < index {
                            converted(legs@[k])
                        } else {
                            BundleLeg::blank()
                        }),
                decreases MAX_LEGS - index,
            {
                let leg: IntentLeg = legs[index];
                converted_legs[index] =
                BundleLeg {
                    contract: leg.contract,
                    side: leg.side,
                    size: leg.size,
                    maker: leg.maker,
                    fill_price: leg.fill_price,
                    quote_expiry: leg.quote_expiry,
                };
                index += 1;
            }
            proof {
                array_is(converted_legs);
                assert(converted_legs@ =~= Seq::new(
                    MAX_LEGS as nat,
                    |k: int|
                        if k < *n_legs {
                            converted(legs@[k])
                        } else {
                            BundleLeg::blank()
                        },
                ));
            }
            Some(
                Bundle {
                    nonce: *nonce,
                    requester: *requester,
                    legs: converted_legs,
                    n_legs: *n_legs,
                },
            )
        },
        _ => None,
    }
}

/// **Custody is handed what the engine agreed to, leg by leg**: an intent becomes a bundle under the
/// same nonce, for the same requester, and every leg of it keeps its contract, side, size, maker,
/// price and expiry. No other event becomes one.
pub proof fn a_bundle_is_what_was_intended(event: &Event, r: Option<Bundle>)
    requires
        call_ensures(bundle_from, (event,), r),
    ensures
        match *event {
            Event::SubmitIntent { nonce, requester, legs, n_legs, .. } => {
                &&& r is Some
                &&& (r->0).nonce == nonce
                &&& (r->0).requester == requester
                &&& (r->0).n_legs == n_legs
                &&& forall|k: int|
                    0 <= k < n_legs && k < MAX_LEGS ==> {
                        let leg = #[trigger] (r->0).legs@[k];
                        &&& leg.contract == legs@[k].contract
                        &&& leg.side == legs@[k].side
                        &&& leg.size == legs@[k].size
                        &&& leg.maker == legs@[k].maker
                        &&& leg.fill_price == legs@[k].fill_price
                        &&& leg.quote_expiry == legs@[k].quote_expiry
                    }
            },
            _ => r is None,
        },
{
    broadcast use array_from_holds;

}

} // verus!
