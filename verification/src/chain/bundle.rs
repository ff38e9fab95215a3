//! The settlement bundle: what custody is asked to include.
//!
//! Custody's own type, over shared value types only. It is not the engine's `SubmitIntent`
//! event: the settlement adapter converts one into the other, and that conversion is where the
//! seam is visible.
//!
//! **One nonce per bundle, not per leg.** The transaction is atomic and legs can never settle
//! separately. The bundle is complete: every value custody validates against travels with it,
//! including each leg's quote expiry, which custody rechecks against **its own clock**.

use crate::account::AccountIdx;
use crate::config::MAX_LEGS;
use crate::contract::ContractIdx;
use crate::request::Nonce;
use crate::types::{narrow, product, Amount, Price, Side, Size, Ts, UNIT};
use vstd::array::array_as_slice;
use vstd::prelude::*;
use vstd::slice::slice_subrange;

verus! {

/// One leg of a bundle.
#[derive(Clone, Copy, Debug, PartialEq, Eq, Structural)]
pub struct BundleLeg {
    /// The contract the escrow forms on.
    pub contract: ContractIdx,
    /// The side the requester bought.
    pub side: Side,
    /// How many contracts.
    pub size: Size,
    /// The maker who takes the other side.
    pub maker: AccountIdx,
    /// The fill price. Both contributions derive from it exactly.
    pub fill_price: Price,
    /// When the maker's quote stops binding. Rechecked against custody's clock.
    pub quote_expiry: Ts,
}

impl Default for BundleLeg {
    fn default() -> (r: Self)
        ensures
            r == BundleLeg::blank(),
    {
        BundleLeg {
            contract: ContractIdx(0),
            side: Side::Yes,
            size: Size(0),
            maker: AccountIdx(0),
            fill_price: Price(0),
            quote_expiry: Ts(0),
        }
    }
}

impl BundleLeg {
    /// A leg nothing has been written into.
    pub open spec fn blank() -> Self {
        BundleLeg {
            contract: ContractIdx(0),
            side: Side::Yes,
            size: Size(0),
            maker: AccountIdx(0),
            fill_price: Price(0),
            quote_expiry: Ts(0),
        }
    }

    /// What the requester puts in: `size * price`.
    pub open spec fn requester_share(self) -> int {
        product(self.size, self.fill_price.0 as int)
    }

    /// What the maker puts in: `size * (UNIT - price)`.
    pub open spec fn maker_share(self) -> int {
        product(self.size, UNIT - self.fill_price.0)
    }

    /// The requester's contribution, `size * price`.
    pub fn requester_contribution(&self) -> (r: Option<Amount>)
        ensures
            r == narrow(self.requester_share()),
    {
        self.size.requester_contribution(self.fill_price)
    }

    /// The maker's contribution, `size * (UNIT - price)`.
    pub fn maker_contribution(&self) -> (r: Option<Amount>)
        ensures
            r == (if self.fill_price.0 <= UNIT {
                narrow(self.maker_share())
            } else {
                None
            }),
    {
        self.size.maker_contribution(self.fill_price)
    }

    /// The notional, `size * UNIT`.
    pub fn notional(&self) -> (r: Option<Amount>)
        ensures
            r == narrow(product(self.size, UNIT as int)),
    {
        self.size.notional()
    }
}

/// An atomic multi-leg settlement transaction.
#[derive(Clone, Copy, Debug, PartialEq, Eq)]
pub struct Bundle {
    /// Unique and deterministic without hashing. Consumed inside the transaction.
    pub nonce: Nonce,
    /// Who is debited the sum of `size * fill_price`.
    pub requester: AccountIdx,
    /// The legs.
    pub legs: [BundleLeg; MAX_LEGS],
    /// How many of them are real.
    pub n_legs: u8,
}

impl Bundle {
    /// The legs that are real; none at all where there are said to be more than fit.
    pub fn legs(&self) -> (r: &[BundleLeg])
        ensures
            r@ == (if self.n_legs <= MAX_LEGS {
                self.legs@.take(self.n_legs as int)
            } else {
                Seq::<BundleLeg>::empty()
            }),
    {
        let all: &[BundleLeg] = array_as_slice(&self.legs);
        let n: usize = self.n_legs as usize;
        if n <= MAX_LEGS {
            proof {
                assert(self.legs@.subrange(0, n as int) =~= self.legs@.take(n as int));
            }
            slice_subrange(all, 0, n)
        } else {
            proof {
                assert(self.legs@.subrange(0, 0) =~= Seq::<BundleLeg>::empty());
            }
            slice_subrange(all, 0, 0)
        }
    }
}

/// **What a leg of a bundle takes from each side**: the requester `size * price`, the maker
/// `size * (1_000_000 - price)`, and `size * 1_000_000` between them.
pub proof fn a_leg_takes_its_price_from_each_side(
    leg: &BundleLeg,
    bought: Option<Amount>,
    sold: Option<Amount>,
    whole: Option<Amount>,
)
    requires
        call_ensures(BundleLeg::requester_contribution, (leg,), bought),
        call_ensures(BundleLeg::maker_contribution, (leg,), sold),
        call_ensures(BundleLeg::notional, (leg,), whole),
    ensures
        match bought {
            Some(amount) => amount.0 == leg.size.0 * leg.fill_price.0,
            None => leg.size.0 * leg.fill_price.0 > 0xffff_ffff_ffff_ffff,
        },
        match sold {
            Some(amount) => leg.fill_price.0 <= 1_000_000 && amount.0 == leg.size.0 * (1_000_000
                - leg.fill_price.0),
            None => leg.fill_price.0 > 1_000_000 || leg.size.0 * (1_000_000 - leg.fill_price.0)
                > 0xffff_ffff_ffff_ffff,
        },
        match whole {
            Some(amount) => amount.0 == leg.size.0 * 1_000_000,
            None => leg.size.0 * 1_000_000 > 0xffff_ffff_ffff_ffff,
        },
{
    assert(0 <= leg.size.0 * leg.fill_price.0) by (nonlinear_arith)
        requires
            0 <= leg.size.0,
            0 <= leg.fill_price.0,
    ;
    if leg.fill_price.0 <= 1_000_000 {
        assert(0 <= leg.size.0 * (1_000_000 - leg.fill_price.0)) by (nonlinear_arith)
            requires
                0 <= leg.size.0,
                0 <= 1_000_000 - leg.fill_price.0,
        ;
    }
}

} // verus!
