//! Whether a quote may be admitted, before anything moves.

use crate::account::AccountIdx;
use crate::ledger::keeps::released_wf;
use crate::ledger::{Ledger, LedgerError, SlabKind};
use crate::quote::QuoteIdx;
use crate::reservation::ResIdx;
use crate::slab::mapped_slots;
use crate::types::Amount;
use vstd::prelude::*;

verus! {

impl Ledger {
    /// Check that a claim of `amount` on `maker` for a quote replacing `prior` would be admitted:
    /// what `prior` holds counts as returned, and its slots as free.
    pub(crate) fn check_replacement(
        &self,
        prior: Option<QuoteIdx>,
        maker: AccountIdx,
        amount: Amount,
    ) -> (r: Result<(), LedgerError>)
        requires
            self.wf(),
            prior matches Some(quote) ==> {
                &&& self@.quotes.names(quote)
                &&& self@.quotes.of(quote).claim matches Some(claim) ==> {
                    &&& self@.release_refused(claim) is None
                    &&& self@.claims.of(claim).account == maker
                }
            },
        ensures
            r == (match self@.replacement_refused(prior, maker, amount) {
                Some(error) => Err::<(), LedgerError>(error),
                None => Ok::<(), LedgerError>(()),
            }),
    {
        let entry = match self.account(maker) {
            Some(entry) => *entry,
            None => {
                return Err(LedgerError::UnknownAccount);
            },
        };
        let mut returned: u64 = 0;
        let mut quote_room = self.quotes.has_room();
        let mut claim_room = self.reservations.has_room();
        proof {
            mapped_slots(
                self.reservations@,
                |claim: crate::reservation::Reservation| claim.unthreaded(),
            );
        }
        match prior {
            Some(quote) => {
                quote_room = quote_room || quote.generation() < u32::MAX;
                let held: Option<ResIdx> = match self.quote(quote) {
                    Some(record) => record.claim(),
                    None => None,
                };
                match held {
                    Some(claim) => {
                        claim_room = claim_room || claim.generation() < u32::MAX;
                        match self.reservation(claim) {
                            Some(found) => {
                                returned = found.amount().0;
                                proof {
                                    released_wf(self@, claim.index());
                                }
                            },
                            None => {},
                        }
                    },
                    None => {},
                }
            },
            None => {},
        }
        let kept: u64 = entry.reserved().0 - returned;
        proof {
            assert(self@.committed_ok(maker.0 as int));
        }
        let claimed: Amount = match Amount(kept + entry.committed().0).checked_add(amount) {
            Some(claimed) => claimed,
            None => {
                return Err(LedgerError::AmountOverflow);
            },
        };
        if claimed.0 > entry.free().0 {
            return Err(LedgerError::InsufficientFree);
        }
        if !quote_room {
            return Err(LedgerError::SlabExhausted { slab: SlabKind::Quote });
        }
        if !claim_room {
            return Err(LedgerError::SlabExhausted { slab: SlabKind::Reservation });
        }
        Ok(())
    }
}

} // verus!
