//! One side of the market: price levels in order of priority, the best last.

use crate::decimal::{in_range, lemma_value_rank_same_scale, OrderError, Scaled, MAX_MANTISSA, MAX_SCALE};
use crate::level::{volume_sum, volumes_ok, LevelModel, PriceLevel};
use crate::price::Price;
use vstd::prelude::*;

verus! {

/// The side of the market an order is on.
#[derive(Clone, Copy, Debug, PartialEq, Eq, Structural)]
pub enum Direction {
    /// A sell order.
    Ask,
    /// A buy order.
    Bid,
}

/// Whether price `a` has priority over price `b` on side `d`: the lower ask,
/// the higher bid.
pub open spec fn outranks(d: Direction, a: int, b: int) -> bool {
    match d {
        Direction::Ask => a < b,
        Direction::Bid => a > b,
    }
}

/// A level that may rest in a book: it holds an order, and its price and
/// volumes are in range.
pub open spec fn level_ok(l: LevelModel) -> bool {
    l.orders.len() > 0 && volumes_ok(l.orders) && in_range(l.price as int)
}

/// A side's levels: none empty, no price twice, each level outranking all
/// those before it.
pub open spec fn book_ok(d: Direction, b: Seq<LevelModel>) -> bool {
    &&& forall|i: int| 0 <= i < b.len() ==> level_ok(#[trigger] b[i])
    &&& forall|i: int, j: int|
        0 <= i < j < b.len() ==> outranks(d, (#[trigger] b[j]).price as int, (#[trigger] b[i]).price as int)
}

/// How many levels of `b` do not outrank `price`: they are the first ones.
pub open spec fn slot(d: Direction, b: Seq<LevelModel>, price: int) -> int
    decreases b.len(),
{
    if b.len() == 0 {
        0
    } else if outranks(d, b.last().price as int, price) {
        slot(d, b.drop_last(), price)
    } else {
        b.len() as int
    }
}

/// Whether the level at `price`, if `b` has one, can take `volume` more
/// without its total leaving the machine's range.
pub open spec fn insert_fits(d: Direction, b: Seq<LevelModel>, price: i128, volume: i128) -> bool {
    let k = slot(d, b, price as int);
    k > 0 && b[k - 1].price == price ==> volume_sum(b[k - 1].orders) + volume <= i128::MAX
}

/// The side after the order `(id, volume)` arrived at `price`: behind the
/// others at that price, or alone in a new level at the price's rank.
pub open spec fn insert_model(
    d: Direction,
    b: Seq<LevelModel>,
    id: usize,
    price: i128,
    volume: i128,
) -> Seq<LevelModel> {
    let k = slot(d, b, price as int);
    if k > 0 && b[k - 1].price == price {
        b.update(k - 1, LevelModel { price, orders: b[k - 1].orders.push((id, volume)) })
    } else {
        b.insert(k, LevelModel { price, orders: seq![(id, volume)] })
    }
}

/// The oldest order at the best price.
pub open spec fn best_head_model(b: Seq<LevelModel>) -> Option<(usize, i128)> {
    if b.len() > 0 && b.last().orders.len() > 0 {
        Some(b.last().orders[0])
    } else {
        None
    }
}

/// The side without the oldest order at its best price, and without that
/// level if it held no other.
pub open spec fn pop_head_model(b: Seq<LevelModel>) -> Seq<LevelModel> {
    if b.len() == 0 {
        b
    } else if b.last().orders.len() <= 1 {
        b.drop_last()
    } else {
        b.drop_last().push(
            LevelModel { price: b.last().price, orders: b.last().orders.drop_first() },
        )
    }
}

/// The side with `volume` left of the oldest order at its best price; nothing
/// left removes the order.
pub open spec fn set_head_model(b: Seq<LevelModel>, volume: i128) -> Seq<LevelModel> {
    if volume == 0 {
        pop_head_model(b)
    } else if b.len() == 0 || b.last().orders.len() == 0 {
        b
    } else {
        b.drop_last().push(
            LevelModel {
                price: b.last().price,
                orders: b.last().orders.update(0, (b.last().orders[0].0, volume)),
            },
        )
    }
}

/// Whether the price `a` has priority over the price `b` on side `d`, both
/// being mantissas at `scale`.
pub fn has_priority(d: Direction, scale: u32, a: i128, b: i128) -> (r: bool)
    requires
        scale <= MAX_SCALE,
        in_range(a as int),
        in_range(b as int),
    ensures
        r == outranks(d, a as int, b as int),
{
    let x = Price::new(d, Scaled::new(a, scale));
    let y = Price::new(d, Scaled::new(b, scale));
    proof {
        lemma_value_rank_same_scale(x.value, y.value);
        lemma_value_rank_same_scale(y.value, x.value);
    }
    x.outranks(&y)
}

/// One side of the market.
#[derive(Debug)]
pub struct Book {
    pub direction: Direction,
    /// The number of fractional digits of the prices.
    pub scale: u32,
    pub levels: Vec<PriceLevel>,
}

impl View for Book {
    type V = Seq<LevelModel>;

    open spec fn view(&self) -> Seq<LevelModel> {
        Seq::new(self.levels@.len(), |i: int| self.levels@[i]@)
    }
}

impl Book {
    /// The levels are those of a side, and each level's total is right.
    pub open spec fn wf(&self) -> bool {
        &&& self.scale <= MAX_SCALE
        &&& book_ok(self.direction, self@)
        &&& forall|i: int| 0 <= i < self.levels@.len() ==> (#[trigger] self.levels@[i]).wf()
    }

    /// The empty side, for prices of `scale` fractional digits.
    pub fn new(direction: Direction, scale: u32) -> (r: Book)
        requires
            scale <= MAX_SCALE,
        ensures
            r.wf(),
            r.direction == direction,
            r.scale == scale,
            r@ == Seq::<LevelModel>::empty(),
    {
        let r = Book { direction, scale, levels: Vec::new() };
        assert(r@ =~= Seq::<LevelModel>::empty());
        r
    }

    /// Puts the order `(id, volume)` at `price`, behind the orders already
    /// there. A price not yet in the book gets a level of its own.
    pub fn insert(&mut self, id: usize, price: i128, volume: i128) -> (r: Result<(), OrderError>)
        requires
            old(self).wf(),
            in_range(price as int),
            0 <= volume <= MAX_MANTISSA,
        ensures
            final(self).wf(),
            final(self).direction == old(self).direction,
            final(self).scale == old(self).scale,
            r.is_ok() <==> insert_fits(old(self).direction, old(self)@, price, volume),
            r.is_ok() ==> final(self)@ == insert_model(
                old(self).direction,
                old(self)@,
                id,
                price,
                volume,
            ),
            r matches Err(e) ==> e == OrderError::Overflow && final(self)@ == old(self)@,
    {
        let ghost before = self@;
        let d = self.direction;
        let mut k: usize = self.levels.len();
        assert(before.take(k as int) =~= before);
        assert(k > 0 ==> level_ok(before[k - 1]));
        while k > 0 && has_priority(d, self.scale, self.levels[k - 1].price, price)
            invariant
                *self == *old(self),
                self.wf(),
                in_range(price as int),
                before == self@,
                d == self.direction,
                k <= self.levels.len(),
                forall|j: int|
                    k <= j < before.len() ==> outranks(d, (#[trigger] before[j]).price as int, price as int),
                slot(d, before, price as int) == slot(d, before.take(k as int), price as int),
            decreases k,
        {
            assert(before.take(k as int).drop_last() =~= before.take(k - 1));
            k = k - 1;
            assert(k > 0 ==> level_ok(before[k - 1]));
        }
        proof {
            crate::matching::lemma_insert(d, before, id, price, volume);
        }
        if k > 0 && self.levels[k - 1].price == price {
            let mut level = self.levels.remove(k - 1);
            let r = level.push(id, volume);
            self.levels.insert(k - 1, level);
            proof {
                if r.is_ok() {
                    assert(self@ =~= insert_model(d, before, id, price, volume));
                } else {
                    assert(self@ =~= before);
                }
            }
            r
        } else {
            let mut level = PriceLevel::new(price);
            let r = level.push(id, volume);
            assert(level@.orders =~= seq![(id, volume)]);
            self.levels.insert(k, level);
            assert(self@ =~= insert_model(d, before, id, price, volume));
            Ok(())
        }
    }

    /// The best price: the lowest ask, the highest bid. A side has one exactly
    /// when it holds a level.
    pub fn best_price(&self) -> (r: Option<Price>)
        ensures
            r.is_some() <==> self@.len() > 0,
            r matches Some(p) ==> p == (Price {
                direction: self.direction,
                value: Scaled { mantissa: self@.last().price, scale: self.scale },
            }),
    {
        let n = self.levels.len();
        if n == 0 {
            None
        } else {
            Some(Price::new(self.direction, Scaled::new(self.levels[n - 1].price, self.scale)))
        }
    }

    /// The oldest order at the best price.
    pub fn best_head(&self) -> (r: Option<(usize, i128)>)
        ensures
            r == best_head_model(self@),
    {
        let n = self.levels.len();
        if n == 0 {
            None
        } else {
            self.levels[n - 1].head()
        }
    }

    /// Removes the oldest order at the best price, and the level with it when
    /// it was the last one there.
    pub fn pop_best_head(&mut self)
        requires
            old(self).wf(),
        ensures
            final(self).wf(),
            final(self).direction == old(self).direction,
            final(self).scale == old(self).scale,
            final(self)@ == pop_head_model(old(self)@),
    {
        let ghost before = self@;
        if let Some(level) = self.levels.pop() {
            let mut level = level;
            assert(level@ == before.last());
            assert(level_ok(before.last()));
            level.pop_head();
            assert(self@ =~= before.drop_last());
            if !level.is_empty() {
                proof {
                    assert forall|i: int| 0 <= i < level@.orders.len() implies 0 <= (
                    #[trigger] level@.orders[i]).1 <= MAX_MANTISSA by {
                        assert(level@.orders[i] == before.last().orders[i + 1]);
                    }
                }
                self.levels.push(level);
                proof {
                    assert(self@ =~= pop_head_model(before));
                    assert(forall|i: int| 0 <= i < self@.len() - 1 ==> self@[i] == before[i]);
                    assert(self@.last().price == before.last().price);
                }
            }
        } else {
            assert(self@ =~= before);
        }
    }

    /// Leaves `volume` of the oldest order at the best price; with nothing
    /// left the order is removed as by `pop_best_head`.
    pub fn decrement_best_head(&mut self, volume: i128)
        requires
            old(self).wf(),
            0 <= volume <= MAX_MANTISSA,
            old(self)@.len() > 0 ==> volume_sum(old(self)@.last().orders) - old(
                self,
            )@.last().orders[0].1 + volume <= i128::MAX,
        ensures
            final(self).wf(),
            final(self).direction == old(self).direction,
            final(self).scale == old(self).scale,
            final(self)@ == set_head_model(old(self)@, volume),
    {
        if volume == 0 {
            self.pop_best_head();
            return ;
        }
        let ghost before = self@;
        if let Some(level) = self.levels.pop() {
            let mut level = level;
            assert(level@ == before.last());
            assert(level_ok(before.last()));
            level.set_head_volume(volume);
            proof {
                assert forall|i: int| 0 <= i < level@.orders.len() implies 0 <= (
                #[trigger] level@.orders[i]).1 <= MAX_MANTISSA by {
                    if i > 0 {
                        assert(level@.orders[i] == before.last().orders[i]);
                    }
                }
            }
            self.levels.push(level);
            proof {
                assert(self@ =~= set_head_model(before, volume));
                assert(forall|i: int| 0 <= i < self@.len() - 1 ==> self@[i] == before[i]);
                assert(self@.last().price == before.last().price);
            }
        } else {
            assert(self@ =~= before);
        }
    }
}

} // verus!
