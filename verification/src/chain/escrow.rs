//! Escrows.
//!
//! ```text
//!   Locked --settle--> Settled      (consumed in the same mutation as the credit)
//! ```
//!
//! Each escrow stores **both contributions separately**, not just the notional. The void path
//! returns each side its own contribution, and a notional alone cannot say who put in what:
//! refunding half each would be a redistribution disguised as neutrality.
//!
//! It also stores the **requester's side** for the leg. There is no implicit buyer or seller:
//! who wins on `Yes` is a property of the leg, and the payout mapping consumes the side.

use crate::account::AccountIdx;
use crate::chain::bundle::BundleLeg;
use crate::contract::{ContractIdx, Outcome};
use crate::types::{product, Amount, Side, Size, UNIT};
use vstd::prelude::*;

verus! {

/// Whether an escrow still holds money.
#[derive(Clone, Copy, Debug, PartialEq, Eq, Structural)]
pub enum EscrowState {
    /// Holding both contributions. **Only `Locked` escrows hold money**: this is the state
    /// conservation counts.
    Locked,
    /// Paid out. Its notional is back in someone's balance, so counting it would make the first
    /// payout read as newly created money.
    Settled,
}

/// One leg's worth of locked capital.
#[derive(Clone, Copy, Debug, PartialEq, Eq, Structural)]
pub struct Escrow {
    /// The contract this escrow resolves against.
    pub contract: ContractIdx,
    /// The side the **requester** bought. What the payout mapping consumes.
    pub side: Side,
    /// How many contracts.
    pub size: Size,
    /// Who bought.
    pub requester: AccountIdx,
    /// Who sold.
    pub maker: AccountIdx,
    /// What the requester put in.
    pub requester_contribution: Amount,
    /// What the maker put in.
    pub maker_contribution: Amount,
    /// Whether it still holds money.
    pub state: EscrowState,
}

impl Escrow {
    /// The escrow a settled leg forms.
    pub open spec fn formed(leg: BundleLeg, requester: AccountIdx) -> Self {
        Escrow {
            contract: leg.contract,
            side: leg.side,
            size: leg.size,
            requester,
            maker: leg.maker,
            requester_contribution: Amount(leg.requester_share() as u64),
            maker_contribution: Amount(leg.maker_share() as u64),
            state: EscrowState::Locked,
        }
    }

    /// What the escrow holds while it is locked.
    pub open spec fn held(self) -> int {
        self.requester_contribution.0 + self.maker_contribution.0
    }

    /// The two contributions sum to the notional, exactly.
    pub open spec fn balanced(self) -> bool {
        self.held() == product(self.size, UNIT as int) && self.held() <= u64::MAX
    }

    /// Paid out.
    pub open spec fn spent(self) -> Self {
        Escrow { state: EscrowState::Settled, ..self }
    }

    /// What `account` is paid when the escrow settles under `outcome`: the winner takes the
    /// whole notional, and a void returns each side its own contribution.
    pub open spec fn payout(self, outcome: Outcome, account: AccountIdx) -> int {
        match outcome {
            Outcome::Void => (if account == self.requester {
                self.requester_contribution.0 as int
            } else {
                0
            }) + (if account == self.maker {
                self.maker_contribution.0 as int
            } else {
                0
            }),
            _ => if account == self.winner(outcome) {
                self.held()
            } else {
                0
            },
        }
    }

    /// Who a decided outcome pays: the requester where it is the side they bought, else the
    /// maker.
    pub open spec fn winner(self, outcome: Outcome) -> AccountIdx {
        if (self.side is Yes) == (outcome is Yes) {
            self.requester
        } else {
            self.maker
        }
    }

    /// A freshly locked escrow.
    pub fn locked(
        contract: ContractIdx,
        side: Side,
        quantity: Size,
        requester: AccountIdx,
        maker: AccountIdx,
        requester_contribution: Amount,
        maker_contribution: Amount,
    ) -> (r: Self)
        ensures
            r == (Escrow {
                contract,
                side,
                size: quantity,
                requester,
                maker,
                requester_contribution,
                maker_contribution,
                state: EscrowState::Locked,
            }),
    {
        Escrow {
            contract,
            side,
            size: quantity,
            requester,
            maker,
            requester_contribution,
            maker_contribution,
            state: EscrowState::Locked,
        }
    }

    /// The contract this escrow resolves against.
    pub fn contract(&self) -> (r: ContractIdx)
        ensures
            r == self.contract,
    {
        self.contract
    }

    /// The requester's side.
    pub fn side(&self) -> (r: Side)
        ensures
            r == self.side,
    {
        self.side
    }

    /// How many contracts.
    pub fn size(&self) -> (r: Size)
        ensures
            r == self.size,
    {
        self.size
    }

    /// Who bought.
    pub fn requester(&self) -> (r: AccountIdx)
        ensures
            r == self.requester,
    {
        self.requester
    }

    /// Who sold.
    pub fn maker(&self) -> (r: AccountIdx)
        ensures
            r == self.maker,
    {
        self.maker
    }

    /// The requester's contribution, `size * price`.
    pub fn requester_contribution(&self) -> (r: Amount)
        ensures
            r == self.requester_contribution,
    {
        self.requester_contribution
    }

    /// The maker's contribution, `size * (UNIT - price)`.
    pub fn maker_contribution(&self) -> (r: Amount)
        ensures
            r == self.maker_contribution,
    {
        self.maker_contribution
    }

    /// The notional: the sum of the two contributions, clamped to what an amount holds.
    pub fn notional(&self) -> (r: Amount)
        ensures
            r.0 == (if self.held() <= u64::MAX {
                self.held()
            } else {
                u64::MAX as int
            }),
    {
        Amount(self.requester_contribution.0.saturating_add(self.maker_contribution.0))
    }

    /// Whether this escrow still holds money.
    pub fn state(&self) -> (r: EscrowState)
        ensures
            r == self.state,
    {
        self.state
    }

    /// Mark the escrow paid out.
    pub(crate) fn mark_settled(&mut self)
        ensures
            *final(self) == old(self).spent(),
    {
        self.state = EscrowState::Settled;
    }

    /// Whether it is still `Locked`.
    pub fn is_locked(&self) -> (r: bool)
        ensures
            r == (self.state is Locked),
    {
        matches!(self.state, EscrowState::Locked)
    }
}

/// A payout hands out exactly what the escrow held: no outcome creates or destroys a unit.
pub proof fn a_payout_pays_what_was_held(escrow: Escrow, outcome: Outcome)
    ensures
        escrow.requester != escrow.maker ==> escrow.payout(outcome, escrow.requester)
            + escrow.payout(outcome, escrow.maker) == escrow.held(),
        escrow.requester == escrow.maker ==> escrow.payout(outcome, escrow.maker) == escrow.held(),
        forall|account: AccountIdx|
            account != escrow.requester && account != escrow.maker ==> escrow.payout(
                outcome,
                account,
            ) == 0,
{
}

/// **An escrow is sound where the two sides put in what its contracts pay**, and what it pays in all is
/// what they put in.
pub proof fn an_escrow_holds_what_its_contracts_pay(escrow: &Escrow, notional: Amount, open: bool)
    requires
        call_ensures(Escrow::notional, (escrow,), notional),
        call_ensures(Escrow::is_locked, (escrow,), open),
    ensures
        escrow.balanced() <==> {
            &&& escrow.requester_contribution.0 + escrow.maker_contribution.0 == escrow.size.0
                * 1_000_000
            &&& escrow.size.0 * 1_000_000 <= 0xffff_ffff_ffff_ffff
        },
        escrow.balanced() ==> notional.0 == escrow.requester_contribution.0
            + escrow.maker_contribution.0,
        open <==> escrow.state == EscrowState::Locked,
{
}

} // verus!
