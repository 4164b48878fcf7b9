//! Prices, ordered by priority on their own side, and volumes.

use crate::book::Direction;
use crate::decimal::{
    decimal_add, decimal_sub, value_rank, OrderError, Rank, Scaled, MAX_MANTISSA,
};
use rust_decimal::Decimal;
use std::cmp::Ordering;
use vstd::prelude::*;

verus! {

/// Compares two numbers with `rust_decimal::Decimal`'s `Ord::cmp`, which
/// orders decimals by their value: it brings the number of the smaller scale
/// to the larger scale, and ranks it higher if that leaves 96 bits.
#[verifier::external_body]
fn decimal_order(a: Scaled, b: Scaled) -> (r: Rank)
    requires
        a.valid(),
        b.valid(),
    ensures
        r == value_rank(a, b),
{
    let x = Decimal::from_i128_with_scale(a.mantissa, a.scale);
    let y = Decimal::from_i128_with_scale(b.mantissa, b.scale);
    match x.cmp(&y) {
        Ordering::Less => Rank::Less,
        Ordering::Equal => Rank::Same,
        Ordering::Greater => Rank::More,
    }
}

/// Whether the number `a` is not below the number `b`.
pub fn not_below(a: Scaled, b: Scaled) -> (r: bool)
    requires
        a.valid(),
        b.valid(),
    ensures
        r == (value_rank(a, b) != Rank::Less),
{
    decimal_order(a, b) != Rank::Less
}

/// The price of an order, with the side it is on.
#[derive(Clone, Copy, Debug, PartialEq, Eq, Structural)]
pub struct Price {
    pub direction: Direction,
    pub value: Scaled,
}

/// How price `a` stands to price `b` in priority: among asks the lower price
/// is the greater, among bids the higher. Prices of different sides are not
/// compared.
pub open spec fn side_rank(a: Price, b: Price) -> Option<Rank> {
    match (a.direction, b.direction) {
        (Direction::Ask, Direction::Ask) => Some(value_rank(b.value, a.value)),
        (Direction::Bid, Direction::Bid) => Some(value_rank(a.value, b.value)),
        _ => None,
    }
}

impl Price {
    pub fn new(direction: Direction, value: Scaled) -> (r: Price)
        ensures
            r.direction == direction,
            r.value == value,
    {
        Price { direction, value }
    }

    /// Rounds the price down to `places` fractional digits. On an error the
    /// price stays as it was.
    pub fn floor(&mut self, places: u32) -> (r: Result<(), OrderError>)
        ensures
            final(self).direction == old(self).direction,
            r.is_ok() <==> old(self).value.floor_fits(places),
            r.is_ok() ==> final(self).value.scale == places && final(self).value.mantissa == old(
                self,
            ).value.floor_mantissa(places) && final(self).value.valid(),
            r matches Err(e) ==> *final(self) == *old(self) && e == (if old(self).value.valid()
                && places <= crate::decimal::MAX_SCALE {
                OrderError::Overflow
            } else {
                OrderError::OutOfRange
            }),
    {
        match self.value.floor_to(places) {
            Ok(v) => {
                self.value = v;
                Ok(())
            },
            Err(e) => Err(e),
        }
    }

    /// The priority of this price against another of the same side.
    pub fn cmp(&self, other: &Price) -> (r: Rank)
        requires
            self.value.valid(),
            other.value.valid(),
            self.direction == other.direction,
        ensures
            side_rank(*self, *other) == Some(r),
    {
        match self.direction {
            Direction::Ask => decimal_order(other.value, self.value),
            Direction::Bid => decimal_order(self.value, other.value),
        }
    }

    /// Whether this price has priority over another of the same side.
    pub fn outranks(&self, other: &Price) -> (r: bool)
        requires
            self.value.valid(),
            other.value.valid(),
            self.direction == other.direction,
        ensures
            r == (side_rank(*self, *other) == Some(Rank::More)),
    {
        self.cmp(other) == Rank::More
    }

    /// The priority of this price against another, if they are of one side.
    pub fn partial_cmp(&self, other: &Price) -> (r: Option<Rank>)
        requires
            self.value.valid(),
            other.value.valid(),
        ensures
            r == side_rank(*self, *other),
    {
        match (self.direction, other.direction) {
            (Direction::Ask, Direction::Ask) => Some(decimal_order(other.value, self.value)),
            (Direction::Bid, Direction::Bid) => Some(decimal_order(self.value, other.value)),
            (_, _) => None,
        }
    }
}

/// The remaining volume of an order.
#[derive(Clone, Copy, Debug, PartialEq, Eq, Structural)]
pub struct Volume {
    pub value: Scaled,
}

impl Volume {
    pub fn new(value: Scaled) -> (r: Volume)
        ensures
            r.value == value,
    {
        Volume { value }
    }

    /// Rounds the volume down to `places` fractional digits. On an error the
    /// volume stays as it was.
    pub fn floor(&mut self, places: u32) -> (r: Result<(), OrderError>)
        ensures
            r.is_ok() <==> old(self).value.floor_fits(places),
            r.is_ok() ==> final(self).value.scale == places && final(self).value.mantissa == old(
                self,
            ).value.floor_mantissa(places) && final(self).value.valid(),
            r.is_ok() ==> (old(self).value.mantissa >= 0 <==> final(self).value.mantissa >= 0),
            r matches Err(e) ==> *final(self) == *old(self) && e == (if old(self).value.valid()
                && places <= crate::decimal::MAX_SCALE {
                OrderError::Overflow
            } else {
                OrderError::OutOfRange
            }),
    {
        match self.value.floor_to(places) {
            Ok(v) => {
                self.value = v;
                Ok(())
            },
            Err(e) => Err(e),
        }
    }

    /// A volume that a decimal can hold and that is not negative.
    pub open spec fn wf(&self) -> bool {
        self.value.valid() && self.value.mantissa >= 0
    }

    /// Adds `other`, a volume of the same scale, unless the sum leaves the
    /// range of a decimal; then the volume stays as it was.
    pub fn add_assign(&mut self, other: Volume) -> (r: Result<(), OrderError>)
        requires
            old(self).wf(),
            other.wf(),
            old(self).value.scale == other.value.scale,
        ensures
            final(self).value.scale == old(self).value.scale,
            r.is_ok() <==> old(self).value.mantissa + other.value.mantissa <= MAX_MANTISSA,
            r.is_ok() ==> final(self).value.mantissa == old(self).value.mantissa
                + other.value.mantissa,
            r matches Err(e) ==> e == OrderError::Overflow && *final(self) == *old(self),
    {
        if other.value.mantissa > MAX_MANTISSA - self.value.mantissa {
            return Err(OrderError::Overflow);
        }
        self.value = decimal_add(self.value, other.value);
        Ok(())
    }

    /// Subtracts `other`, a volume of the same scale. The difference of two
    /// volumes may be below zero.
    pub fn sub_assign(&mut self, other: Volume)
        requires
            old(self).wf(),
            other.wf(),
            old(self).value.scale == other.value.scale,
        ensures
            final(self).value.scale == old(self).value.scale,
            final(self).value.mantissa == old(self).value.mantissa - other.value.mantissa,
    {
        self.value = decimal_sub(self.value, other.value);
    }

    /// Whether nothing remains: the order is filled.
    pub fn is_zero(&self) -> (r: bool)
        ensures
            r == (self.value.mantissa == 0),
    {
        self.value.mantissa == 0
    }
}

} // verus!
