//! The money and time newtypes.
//!
//! Every one of them is a distinct type rather than a `u64` alias, so a size cannot be
//! passed where a price is expected and a timestamp cannot be added to an amount. None of
//! them implement `Add`: every arithmetic operation is checked, and an infix operator that
//! can wrap or panic is exactly what that forbids.
//!
//! An instant ([`Ts`]) and a length of time ([`Dur`]) are two types. Adding two instants is
//! unsayable, and every startup bound is a comparison between two lengths.

use vstd::prelude::*;

verus! {

/// Payout per contract to the winning side, in minor units.
///
/// It appears in `maker_contribution = size * (UNIT - price)` and in
/// `notional = size * UNIT`.
pub const UNIT: u32 = 1_000_000;

/// An amount of the settlement asset, in minor units.
///
/// There is exactly one implicit asset; no asset id appears in any structure.
#[derive(Clone, Copy, Debug, PartialEq, Eq, Structural, PartialOrd, Ord)]
pub struct Amount(pub u64);

impl Amount {
    /// No money at all.
    pub fn zero() -> (r: Self)
        ensures
            r == Amount(0),
    {
        Amount(0)
    }

    /// Sum, or `None` on overflow. Overflow is a rejection, never a wrap.
    pub fn checked_add(self, other: Self) -> (r: Option<Self>)
        ensures
            r == (if self.0 + other.0 <= u64::MAX {
                Some(Amount((self.0 + other.0) as u64))
            } else {
                None
            }),
    {
        match self.0.checked_add(other.0) {
            Some(sum) => Some(Amount(sum)),
            None => None,
        }
    }

    /// Difference, or `None` if it would go negative.
    pub fn checked_sub(self, other: Self) -> (r: Option<Self>)
        ensures
            r == (if self.0 >= other.0 {
                Some(Amount((self.0 - other.0) as u64))
            } else {
                None
            }),
    {
        match self.0.checked_sub(other.0) {
            Some(diff) => Some(Amount(diff)),
            None => None,
        }
    }
}

impl Default for Amount {
    fn default() -> (r: Self)
        ensures
            r == Amount(0),
    {
        Amount(0)
    }
}

/// A price in minor units per contract, always the price of the side the requester is
/// buying, so lowest-is-best holds for `Yes` and `No` legs alike.
///
/// The admissible range is `[0, UNIT]`, checked at admission rather than by the type: the
/// bound is market structure, and a type that enforces it would be fallible to construct.
#[derive(Clone, Copy, Debug, PartialEq, Eq, Structural, PartialOrd, Ord)]
pub struct Price(pub u32);

impl Price {
    /// The price of a contract that has already won.
    pub fn unit() -> (r: Self)
        ensures
            r == Price(UNIT),
    {
        Price(UNIT)
    }
}

impl Default for Price {
    fn default() -> (r: Self)
        ensures
            r == Price(0),
    {
        Price(0)
    }
}

/// A number of contracts.
///
/// Contribution is `size * price` with the product taken in `u128` and checked on narrowing,
/// which is why size and price are separately typed.
#[derive(Clone, Copy, Debug, PartialEq, Eq, Structural, PartialOrd, Ord)]
pub struct Size(pub u64);

/// `size * price`, the mathematical product.
pub open spec fn product(size: Size, price: int) -> int {
    size.0 * price
}

/// An integer as an amount, or `None` where it does not fit.
pub open spec fn narrow(value: int) -> Option<Amount> {
    if 0 <= value <= u64::MAX {
        Some(Amount(value as u64))
    } else {
        None
    }
}

impl Size {
    /// `self * price`, or `None` if the product does not fit an amount.
    pub fn checked_mul(self, price: Price) -> (r: Option<Amount>)
        ensures
            r == narrow(product(self, price.0 as int)),
    {
        assert(0 <= self.0 * price.0 <= u64::MAX * u32::MAX) by (nonlinear_arith)
            requires
                0 <= self.0 <= u64::MAX,
                0 <= price.0 <= u32::MAX,
        ;
        let wide: u128 = (self.0 as u128) * (price.0 as u128);
        if wide <= u64::MAX as u128 {
            Some(Amount(wide as u64))
        } else {
            None
        }
    }

    /// What the requester puts in for this many contracts at `price`.
    pub fn requester_contribution(self, price: Price) -> (r: Option<Amount>)
        ensures
            r == narrow(product(self, price.0 as int)),
    {
        self.checked_mul(price)
    }

    /// What the maker puts in: `self * (UNIT - price)`, or `None` if the price is above
    /// `UNIT` or the product does not fit an amount.
    pub fn maker_contribution(self, price: Price) -> (r: Option<Amount>)
        ensures
            r == (if price.0 <= UNIT {
                narrow(product(self, UNIT - price.0))
            } else {
                None
            }),
    {
        if price.0 <= UNIT {
            self.checked_mul(Price(UNIT - price.0))
        } else {
            None
        }
    }

    /// `self * UNIT`, what one side wins in total, or `None` if it does not fit an amount.
    pub fn notional(self) -> (r: Option<Amount>)
        ensures
            r == narrow(product(self, UNIT as int)),
    {
        self.checked_mul(Price(UNIT))
    }
}

impl Default for Size {
    fn default() -> (r: Self)
        ensures
            r == Size(0),
    {
        Size(0)
    }
}

/// The two contributions to a leg sum to its notional exactly, with no division and so no
/// rounding: at any price in `[0, UNIT]`, `size * price + size * (UNIT - price)` is
/// `size * UNIT`.
pub proof fn contributions_sum_to_notional(size: Size, price: Price)
    requires
        price.0 <= UNIT,
    ensures
        product(size, price.0 as int) + product(size, UNIT - price.0) == product(size, UNIT as int),
{
    assert(size.0 * price.0 + size.0 * (UNIT - price.0) == size.0 * UNIT) by (nonlinear_arith);
}

/// Where the notional fits an amount, so does each contribution.
pub proof fn contributions_fit_with_the_notional(size: Size, price: Price)
    requires
        price.0 <= UNIT,
        narrow(product(size, UNIT as int)) is Some,
    ensures
        narrow(product(size, price.0 as int)) is Some,
        narrow(product(size, UNIT - price.0)) is Some,
{
    contributions_sum_to_notional(size, price);
    assert(0 <= size.0 * price.0) by (nonlinear_arith)
        requires
            0 <= size.0,
            0 <= price.0,
    ;
    assert(0 <= size.0 * (UNIT - price.0)) by (nonlinear_arith)
        requires
            0 <= size.0,
            price.0 <= UNIT,
    ;
}

/// A length of time, in milliseconds.
#[derive(Clone, Copy, Debug, PartialEq, Eq, Structural, PartialOrd, Ord)]
pub struct Dur(pub u64);

impl Dur {
    /// No time at all.
    pub fn zero() -> (r: Self)
        ensures
            r == Dur(0),
    {
        Dur(0)
    }

    /// Sum, or `None` on overflow.
    pub fn checked_add(self, other: Self) -> (r: Option<Self>)
        ensures
            r == (if self.0 + other.0 <= u64::MAX {
                Some(Dur((self.0 + other.0) as u64))
            } else {
                None
            }),
    {
        match self.0.checked_add(other.0) {
            Some(sum) => Some(Dur(sum)),
            None => None,
        }
    }

    /// `self * count`, or `None` on overflow. Used for `confirmations * block_time`.
    pub fn checked_mul(self, count: u32) -> (r: Option<Self>)
        ensures
            r == (if self.0 * count <= u64::MAX {
                Some(Dur((self.0 * count) as u64))
            } else {
                None
            }),
    {
        match self.0.checked_mul(count as u64) {
            Some(wide) => Some(Dur(wide)),
            None => None,
        }
    }
}

impl Default for Dur {
    fn default() -> (r: Self)
        ensures
            r == Dur(0),
    {
        Dur(0)
    }
}

/// A point in time, in **milliseconds** since an arbitrary epoch.
///
/// Quote lifetimes are seconds and escrow lifetimes are months, so `u64` is not a range
/// concern and the resolution is finer than any decision the system makes.
#[derive(Clone, Copy, Debug, PartialEq, Eq, Structural, PartialOrd, Ord)]
pub struct Ts(pub u64);

impl Ts {
    /// The epoch itself.
    pub fn zero() -> (r: Self)
        ensures
            r == Ts(0),
    {
        Ts(0)
    }

    /// `self + duration`, or `None` on overflow.
    pub fn checked_add(self, duration: Dur) -> (r: Option<Self>)
        ensures
            r == (if self.0 + duration.0 <= u64::MAX {
                Some(Ts((self.0 + duration.0) as u64))
            } else {
                None
            }),
    {
        match self.0.checked_add(duration.0) {
            Some(sum) => Some(Ts(sum)),
            None => None,
        }
    }

    /// This instant moved forward by `duration`, clamped at the end of time.
    pub open spec fn plus(self, duration: Dur) -> Self {
        Ts(
            (if self.0 + duration.0 <= u64::MAX {
                self.0 + duration.0
            } else {
                u64::MAX as int
            }) as u64,
        )
    }

    /// `self + duration`, clamped at the end of time.
    pub fn saturating_add(self, duration: Dur) -> (r: Self)
        ensures
            r == self.plus(duration),
    {
        Ts(self.0.saturating_add(duration.0))
    }

    /// The duration from `earlier` to `self`, or zero if `self` is not later.
    ///
    /// Saturating rather than checked because the caller of a *difference* between two
    /// instants always wants a duration, and a negative one is not representable.
    pub fn saturating_sub(self, earlier: Self) -> (r: Dur)
        ensures
            r == Dur(
                (if self.0 >= earlier.0 {
                    self.0 - earlier.0
                } else {
                    0
                }) as u64,
            ),
    {
        Dur(self.0.saturating_sub(earlier.0))
    }

    /// `self * count`, or `None` on overflow.
    pub fn checked_mul(self, count: u32) -> (r: Option<Self>)
        ensures
            r == (if self.0 * count <= u64::MAX {
                Some(Ts((self.0 * count) as u64))
            } else {
                None
            }),
    {
        match self.0.checked_mul(count as u64) {
            Some(wide) => Some(Ts(wide)),
            None => None,
        }
    }
}

impl Default for Ts {
    fn default() -> (r: Self)
        ensures
            r == Ts(0),
    {
        Ts(0)
    }
}

/// Which leg of a request, counted from zero.
#[derive(Clone, Copy, Debug, PartialEq, Eq, Structural, PartialOrd, Ord)]
pub struct LegId(pub u8);

impl Default for LegId {
    fn default() -> (r: Self)
        ensures
            r == LegId(0),
    {
        LegId(0)
    }
}

/// The side of a contract the requester is buying.
///
/// There is no implicit buyer or seller: who wins on `Yes` is a property of the leg.
#[derive(Clone, Copy, Debug, PartialEq, Eq, Structural)]
pub enum Side {
    /// Pays if the event happens.
    Yes,
    /// Pays if it does not.
    No,
}

impl Default for Side {
    fn default() -> (r: Self)
        ensures
            r == Side::Yes,
    {
        Side::Yes
    }
}

/// What is added can be taken off again, and nothing wraps: two amounts add up to their sum, or to
/// nothing where that does not fit; and one is taken off another exactly where it is no larger.
pub proof fn amounts_add_and_subtract_exactly(
    a: Amount,
    b: Amount,
    sum: Option<Amount>,
    difference: Option<Amount>,
)
    requires
        call_ensures(Amount::checked_add, (a, b), sum),
        call_ensures(Amount::checked_sub, (a, b), difference),
    ensures
        match sum {
            Some(total) => total.0 == a.0 + b.0,
            None => a.0 + b.0 > 0xffff_ffff_ffff_ffff,
        },
        match difference {
            Some(rest) => rest.0 == a.0 - b.0,
            None => a.0 < b.0,
        },
{
}

/// **What each side puts in**: at a price, the requester `size * price` and the maker
/// `size * (1_000_000 - price)`, which together are the `size * 1_000_000` that one side wins; each
/// to the last unit, or nothing where it does not fit, and for the maker where the price is above
/// what a contract pays.
pub proof fn contributions_are_exact(
    size: Size,
    price: Price,
    bought: Option<Amount>,
    sold: Option<Amount>,
    won: Option<Amount>,
    product: Option<Amount>,
)
    requires
        call_ensures(Size::requester_contribution, (size, price), bought),
        call_ensures(Size::maker_contribution, (size, price), sold),
        call_ensures(Size::notional, (size,), won),
        call_ensures(Size::checked_mul, (size, price), product),
    ensures
        match bought {
            Some(amount) => amount.0 == size.0 * price.0,
            None => size.0 * price.0 > 0xffff_ffff_ffff_ffff,
        },
        match sold {
            Some(amount) => price.0 <= 1_000_000 && amount.0 == size.0 * (1_000_000 - price.0),
            None => price.0 > 1_000_000 || size.0 * (1_000_000 - price.0) > 0xffff_ffff_ffff_ffff,
        },
        match won {
            Some(amount) => amount.0 == size.0 * 1_000_000,
            None => size.0 * 1_000_000 > 0xffff_ffff_ffff_ffff,
        },
        product == bought,
        won is Some && price.0 <= 1_000_000 ==> bought is Some && sold is Some && (
        bought->0).0 + (sold->0).0 == (won->0).0,
{
    assert(0 <= size.0 * price.0) by (nonlinear_arith)
        requires
            0 <= size.0,
            0 <= price.0,
    ;
    if price.0 <= 1_000_000 {
        contributions_sum_to_notional(size, price);
        assert(0 <= size.0 * (1_000_000 - price.0)) by (nonlinear_arith)
            requires
                0 <= size.0,
                0 <= 1_000_000 - price.0,
        ;
    }
}

/// **Time neither wraps nor runs out silently**: an instant and a length add up to their sum, or to
/// nothing where it does not fit, or saturated to the end of time; what lies between two instants is
/// their difference, and nothing where the earlier is the later.
pub proof fn time_adds_up_exactly(
    at: Ts,
    earlier: Ts,
    length: Dur,
    other: Dur,
    count: u32,
    then: Option<Ts>,
    clamped: Ts,
    between: Dur,
    sum: Option<Dur>,
    times: Option<Dur>,
)
    requires
        call_ensures(Ts::checked_add, (at, length), then),
        call_ensures(Ts::saturating_add, (at, length), clamped),
        call_ensures(Ts::saturating_sub, (at, earlier), between),
        call_ensures(Dur::checked_add, (length, other), sum),
        call_ensures(Dur::checked_mul, (length, count), times),
    ensures
        match then {
            Some(instant) => instant.0 == at.0 + length.0 && clamped == instant,
            None => at.0 + length.0 > 0xffff_ffff_ffff_ffff && clamped.0 == 0xffff_ffff_ffff_ffff,
        },
        at.0 >= earlier.0 ==> between.0 == at.0 - earlier.0,
        at.0 < earlier.0 ==> between.0 == 0,
        match sum {
            Some(whole) => whole.0 == length.0 + other.0,
            None => length.0 + other.0 > 0xffff_ffff_ffff_ffff,
        },
        match times {
            Some(whole) => whole.0 == length.0 * count,
            None => length.0 * count > 0xffff_ffff_ffff_ffff,
        },
{
}

/// `count` times an instant, or nothing where it does not fit.
pub proof fn an_instant_multiplies_exactly(at: Ts, count: u32, times: Option<Ts>)
    requires
        call_ensures(Ts::checked_mul, (at, count), times),
    ensures
        match times {
            Some(whole) => whole.0 == at.0 * count,
            None => at.0 * count > 0xffff_ffff_ffff_ffff,
        },
{
    assert(0 <= at.0 * count) by (nonlinear_arith)
        requires
            0 <= at.0,
            0 <= count,
    ;
}

} // verus!
