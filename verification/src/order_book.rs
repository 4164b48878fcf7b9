//! The order book of one instrument: an ask side, a bid side, and matching.

use crate::book::{insert_fits, insert_model, Book, Direction};
use crate::decimal::{
    floored, in_range, lemma_value_rank_same_scale, OrderError, Scaled, MAX_SCALE,
};
use crate::price::{not_below, Price, Volume};
use crate::level::LevelModel;
use crate::matching::{crossing, lemma_step, order_count, settle, step_events};
use vstd::prelude::*;

verus! {

/// The scales of a book: the fractional digits of volumes (`base`) and of
/// prices (`quote`).
#[derive(Clone, Copy, Debug, PartialEq, Eq, Structural)]
pub struct Fixed {
    pub base: i32,
    pub quote: i32,
}

/// The scale `n` as a number of fractional digits, where a decimal can have
/// that many.
pub open spec fn places_of(n: i32) -> Option<u32> {
    if 0 <= n <= MAX_SCALE {
        Some(n as u32)
    } else {
        None
    }
}

/// The scale `n` as a number of fractional digits, where a decimal can have
/// that many.
pub fn places(n: i32) -> (r: Option<u32>)
    ensures
        r == places_of(n),
{
    if 0 <= n && n <= 28 {
        Some(n as u32)
    } else {
        None
    }
}

impl Fixed {
    pub fn new(base: i32, quote: i32) -> (r: Fixed)
        ensures
            r.base == base,
            r.quote == quote,
    {
        Fixed { base, quote }
    }

    /// Both scales are numbers of digits that a decimal can have.
    pub open spec fn usable(&self) -> bool {
        places_of(self.base).is_some() && places_of(self.quote).is_some()
    }

    /// The scale at which the book keeps its prices.
    pub open spec fn price_scale(&self) -> u32 {
        match places_of(self.quote) {
            Some(s) => s,
            None => 0,
        }
    }

    /// The scale of the volumes that matching reports.
    pub open spec fn volume_scale(&self) -> u32 {
        match places_of(self.base) {
            Some(s) => s,
            None => 0,
        }
    }

    /// The scale at which the book keeps its prices.
    pub fn price_places(&self) -> (r: u32)
        ensures
            r == self.price_scale(),
            r <= MAX_SCALE,
    {
        match places(self.quote) {
            Some(s) => s,
            None => 0,
        }
    }

    /// The scale of the volumes that matching reports.
    pub fn volume_places(&self) -> (r: u32)
        ensures
            r == self.volume_scale(),
            r <= MAX_SCALE,
    {
        match places(self.base) {
            Some(s) => s,
            None => 0,
        }
    }
}

/// The events as `(id, mantissa of the remaining volume)`.
pub open spec fn event_models(events: Seq<(usize, Volume)>) -> Seq<(usize, i128)> {
    Seq::new(events.len(), |i: int| (events[i].0, events[i].1.value.mantissa))
}

/// The order book of one instrument.
#[derive(Debug)]
pub struct OrderBook {
    pub fixed: Fixed,
    pub ask: Book,
    pub bid: Book,
}

impl OrderBook {
    /// Each side is in order and holds its own direction.
    pub open spec fn wf(&self) -> bool {
        &&& self.ask.wf()
        &&& self.bid.wf()
        &&& self.ask.direction == Direction::Ask
        &&& self.bid.direction == Direction::Bid
        &&& self.ask.scale == self.fixed.price_scale()
        &&& self.bid.scale == self.fixed.price_scale()
    }

    /// The levels of one side.
    pub open spec fn side(&self, direction: Direction) -> Seq<LevelModel> {
        match direction {
            Direction::Ask => self.ask@,
            Direction::Bid => self.bid@,
        }
    }

    /// Why `add` turns an order away, if it does.
    pub open spec fn add_error(&self, direction: Direction, price: Scaled, volume: Scaled) -> Option<
        OrderError,
    > {
        if !(self.fixed.usable() && price.valid() && volume.valid()) {
            Some(OrderError::OutOfRange)
        } else if volume.mantissa < 0 {
            Some(OrderError::NegativeVolume)
        } else {
            let p = self.floored_price(price);
            let v = self.floored_volume(volume);
            if !in_range(p) || !in_range(v) || !insert_fits(
                direction,
                self.side(direction),
                p as i128,
                v as i128,
            ) {
                Some(OrderError::Overflow)
            } else {
                None
            }
        }
    }

    /// The mantissa of `price` rounded down to the book's price scale.
    pub open spec fn floored_price(&self, price: Scaled) -> int {
        floored(price.mantissa as int, price.scale as nat, self.fixed.quote as nat)
    }

    /// The mantissa of `volume` rounded down to the book's volume scale.
    pub open spec fn floored_volume(&self, volume: Scaled) -> int {
        floored(volume.mantissa as int, volume.scale as nat, self.fixed.base as nat)
    }

    /// The ask side once `add` has let the order in.
    pub open spec fn ask_after_add(
        &self,
        direction: Direction,
        id: usize,
        price: Scaled,
        volume: Scaled,
    ) -> Seq<LevelModel> {
        if direction == Direction::Ask {
            insert_model(
                direction,
                self.ask@,
                id,
                self.floored_price(price) as i128,
                self.floored_volume(volume) as i128,
            )
        } else {
            self.ask@
        }
    }

    /// The bid side once `add` has let the order in.
    pub open spec fn bid_after_add(
        &self,
        direction: Direction,
        id: usize,
        price: Scaled,
        volume: Scaled,
    ) -> Seq<LevelModel> {
        if direction == Direction::Bid {
            insert_model(
                direction,
                self.bid@,
                id,
                self.floored_price(price) as i128,
                self.floored_volume(volume) as i128,
            )
        } else {
            self.bid@
        }
    }

    /// The empty book with `base_fixed` fractional digits for volumes and
    /// `quote_fixed` for prices.
    pub fn new(base_fixed: i32, quote_fixed: i32) -> (r: OrderBook)
        ensures
            r.wf(),
            r.fixed == (Fixed { base: base_fixed, quote: quote_fixed }),
            r.ask@ == Seq::<LevelModel>::empty(),
            r.bid@ == Seq::<LevelModel>::empty(),
    {
        let fixed = Fixed::new(base_fixed, quote_fixed);
        let scale: u32 = fixed.price_places();
        OrderBook {
            fixed,
            ask: Book::new(Direction::Ask, scale),
            bid: Book::new(Direction::Bid, scale),
        }
    }

    /// Rounds `price` and `volume` down to the book's scales and lets the
    /// order rest on its side, behind the orders already at that price. An
    /// order that is turned away leaves the book as it was.
    pub fn add(&mut self, direction: Direction, id: usize, price: Scaled, volume: Scaled) -> (r:
        Result<(), OrderError>)
        requires
            old(self).wf(),
        ensures
            final(self).wf(),
            final(self).fixed == old(self).fixed,
            r.is_ok() <==> old(self).add_error(direction, price, volume).is_none(),
            r matches Err(e) ==> old(self).add_error(direction, price, volume) == Some(e),
            r.is_err() ==> final(self).ask@ == old(self).ask@ && final(self).bid@ == old(
                self,
            ).bid@,
            r.is_ok() ==> final(self).side(direction) == insert_model(
                direction,
                old(self).side(direction),
                id,
                old(self).floored_price(price) as i128,
                old(self).floored_volume(volume) as i128,
            ),
            r.is_ok() ==> final(self).ask@ == old(self).ask_after_add(direction, id, price, volume),
            r.is_ok() ==> final(self).bid@ == old(self).bid_after_add(direction, id, price, volume),
    {
        let quote = places(self.fixed.quote);
        let base = places(self.fixed.base);
        if quote.is_none() || base.is_none() || !price.is_valid() || !volume.is_valid() {
            return Err(OrderError::OutOfRange);
        }
        if volume.mantissa < 0 {
            return Err(OrderError::NegativeVolume);
        }
        let mut price = Price::new(direction, price);
        if let Err(e) = price.floor(quote.unwrap()) {
            return Err(e);
        }
        let mut volume = Volume::new(volume);
        if let Err(e) = volume.floor(base.unwrap()) {
            return Err(e);
        }
        match direction {
            Direction::Ask => self.ask.insert(id, price.value.mantissa, volume.value.mantissa),
            Direction::Bid => self.bid.insert(id, price.value.mantissa, volume.value.mantissa),
        }
    }

    /// Whether the two sides cross: both hold an order, and the best bid is
    /// not below the best ask.
    pub fn is_matching(&self) -> (r: bool)
        requires
            self.wf(),
        ensures
            r == crossing(self.ask@, self.bid@),
    {
        match (self.bid.best_price(), self.ask.best_price()) {
            (Some(bid_price), Some(ask_price)) => {
                proof {
                    assert(crate::book::level_ok(self.bid@.last()));
                    assert(crate::book::level_ok(self.ask@.last()));
                    lemma_value_rank_same_scale(bid_price.value, ask_price.value);
                }
                not_below(bid_price.value, ask_price.value)
            },
            (_, _) => false,
        }
    }

    /// Matches until the sides no longer cross. Each step pairs the oldest
    /// order at the best ask with the oldest at the best bid and reports what
    /// remains of the ask, then of the bid.
    pub fn trade(&mut self) -> (events: Vec<(usize, Volume)>)
        requires
            old(self).wf(),
        ensures
            final(self).wf(),
            final(self).fixed == old(self).fixed,
            event_models(events@) == settle(old(self).ask@, old(self).bid@).events,
            final(self).ask@ == settle(old(self).ask@, old(self).bid@).ask,
            final(self).bid@ == settle(old(self).ask@, old(self).bid@).bid,
            forall|i: int|
                0 <= i < events@.len() ==> (#[trigger] events@[i]).1.value.scale == old(
                    self,
                ).fixed.volume_scale(),
            !crossing(final(self).ask@, final(self).bid@),
    {
        let mut result: Vec<(usize, Volume)> = Vec::new();
        let scale: u32 = self.fixed.volume_places();
        let ghost start = settle(self.ask@, self.bid@);
        assert(event_models(result@) + start.events =~= start.events);
        while self.is_matching()
            invariant
                self.wf(),
                self.fixed == old(self).fixed,
                scale == self.fixed.volume_scale(),
                start.events == event_models(result@) + settle(self.ask@, self.bid@).events,
                start.ask == settle(self.ask@, self.bid@).ask,
                start.bid == settle(self.ask@, self.bid@).bid,
                forall|i: int| 0 <= i < result@.len() ==> (#[trigger] result@[i]).1.value.scale == scale,
            decreases order_count(self.ask@) + order_count(self.bid@),
        {
            let ghost ask0 = self.ask@;
            let ghost bid0 = self.bid@;
            let ghost before = result@;
            proof {
                lemma_step(ask0, bid0);
                assert(self.ask.levels@[self.ask.levels@.len() - 1].wf());
                assert(self.bid.levels@[self.bid.levels@.len() - 1].wf());
                assert(crate::book::level_ok(ask0.last()) && crate::book::level_ok(bid0.last()));
                assert(in_range(ask0.last().orders[0].1 as int) && ask0.last().orders[0].1 >= 0);
                assert(in_range(bid0.last().orders[0].1 as int) && bid0.last().orders[0].1 >= 0);
            }
            if let (Some((a_id, a_volume)), Some((b_id, b_volume))) = (
                self.ask.best_head(),
                self.bid.best_head(),
            ) {
                let mut delta = Volume::new(Scaled::new(a_volume, scale));
                delta.sub_assign(Volume::new(Scaled::new(b_volume, scale)));
                let r: i128 = delta.value.mantissa;
                if r == 0 {
                    result.push((a_id, Volume::new(Scaled::new(0, scale))));
                    result.push((b_id, Volume::new(Scaled::new(0, scale))));
                    self.ask.pop_best_head();
                    self.bid.pop_best_head();
                } else if r < 0 {
                    result.push((a_id, Volume::new(Scaled::new(0, scale))));
                    result.push((b_id, Volume::new(Scaled::new(-r, scale))));
                    self.ask.pop_best_head();
                    self.bid.decrement_best_head(-r);
                } else {
                    result.push((a_id, Volume::new(Scaled::new(r, scale))));
                    result.push((b_id, Volume::new(Scaled::new(0, scale))));
                    self.ask.decrement_best_head(r);
                    self.bid.pop_best_head();
                }
                proof {
                    assert(event_models(result@) =~= event_models(before) + step_events(
                        ask0,
                        bid0,
                    ));
                    assert(event_models(result@) + settle(self.ask@, self.bid@).events
                        =~= event_models(before) + settle(ask0, bid0).events);
                }
            }
        }
        result
    }
}

} // verus!
