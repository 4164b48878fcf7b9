//! One price level: the orders resting at a single price, first come first
//! served, with their total volume kept beside them.

use crate::decimal::{OrderError, MAX_MANTISSA};
use std::collections::VecDeque;
use vstd::prelude::*;

verus! {

/// What a price level is: its price and its orders `(id, remaining volume)` in
/// arrival order, the oldest first. Prices and volumes are mantissas at the
/// owning book's scales.
pub struct LevelModel {
    pub price: i128,
    pub orders: Seq<(usize, i128)>,
}

/// The sum of the remaining volumes of `orders`.
pub open spec fn volume_sum(orders: Seq<(usize, i128)>) -> int
    decreases orders.len(),
{
    if orders.len() == 0 {
        0
    } else {
        volume_sum(orders.drop_last()) + orders.last().1
    }
}

/// Every remaining volume is one that a decimal can hold, and none is
/// negative.
pub open spec fn volumes_ok(orders: Seq<(usize, i128)>) -> bool {
    forall|i: int| 0 <= i < orders.len() ==> 0 <= (#[trigger] orders[i]).1 <= MAX_MANTISSA
}

/// The sum counts the head and then the rest.
pub proof fn lemma_volume_sum_head(orders: Seq<(usize, i128)>)
    requires
        orders.len() > 0,
    ensures
        volume_sum(orders) == orders[0].1 + volume_sum(orders.drop_first()),
    decreases orders.len(),
{
    if orders.len() == 1 {
        assert(orders.drop_last() =~= Seq::empty());
        assert(orders.drop_first() =~= Seq::empty());
    } else {
        let front = orders.drop_last();
        lemma_volume_sum_head(front);
        assert(front.drop_first() =~= orders.drop_first().drop_last());
    }
}

/// A sum of volumes that are not negative is not negative.
pub proof fn lemma_volume_sum_nonnegative(orders: Seq<(usize, i128)>)
    requires
        volumes_ok(orders),
    ensures
        volume_sum(orders) >= 0,
    decreases orders.len(),
{
    if orders.len() > 0 {
        lemma_volume_sum_nonnegative(orders.drop_last());
    }
}

/// The orders resting at one price.
#[derive(Debug)]
pub struct PriceLevel {
    pub price: i128,
    pub total: i128,
    pub queue: VecDeque<(usize, i128)>,
}

impl View for PriceLevel {
    type V = LevelModel;

    open spec fn view(&self) -> LevelModel {
        LevelModel { price: self.price, orders: self.queue@ }
    }
}

impl PriceLevel {
    /// The cached total is the sum of the queue, and every volume is in range.
    pub open spec fn wf(&self) -> bool {
        &&& self.total == volume_sum(self.queue@)
        &&& volumes_ok(self.queue@)
    }

    /// The empty level at `price`.
    pub fn new(price: i128) -> (r: PriceLevel)
        ensures
            r.wf(),
            r@.price == price,
            r@.orders == Seq::<(usize, i128)>::empty(),
            r.total == 0,
    {
        PriceLevel { price, total: 0, queue: VecDeque::new() }
    }

    /// Appends the order `(id, volume)` behind those already waiting, unless the
    /// total would leave the machine's range.
    pub fn push(&mut self, id: usize, volume: i128) -> (r: Result<(), OrderError>)
        requires
            old(self).wf(),
            0 <= volume <= MAX_MANTISSA,
        ensures
            final(self).wf(),
            final(self)@.price == old(self)@.price,
            r.is_ok() <==> old(self).total + volume <= i128::MAX,
            r.is_ok() ==> final(self)@.orders == old(self)@.orders.push((id, volume)),
            r.is_ok() ==> final(self).total == old(self).total + volume,
            r matches Err(e) ==> e == OrderError::Overflow && final(self)@ == old(self)@
                && final(self).total == old(self).total,
    {
        proof {
            lemma_volume_sum_nonnegative(self.queue@);
        }
        if volume > i128::MAX - self.total {
            return Err(OrderError::Overflow);
        }
        proof {
            assert(self.queue@.push((id, volume)).drop_last() =~= self.queue@);
        }
        self.queue.push_back((id, volume));
        self.total = self.total + volume;
        Ok(())
    }

    pub fn is_empty(&self) -> (r: bool)
        ensures
            r == (self@.orders.len() == 0),
    {
        self.queue.len() == 0
    }

    /// The oldest order, if there is one.
    pub fn head(&self) -> (r: Option<(usize, i128)>)
        ensures
            r == (if self@.orders.len() > 0 {
                Some(self@.orders[0])
            } else {
                None
            }),
    {
        if self.queue.len() == 0 {
            None
        } else {
            Some(self.queue[0])
        }
    }

    /// Takes the oldest order out, if there is one.
    pub fn pop_head(&mut self)
        requires
            old(self).wf(),
        ensures
            final(self).wf(),
            final(self)@.price == old(self)@.price,
            final(self)@.orders == (if old(self)@.orders.len() > 0 {
                old(self)@.orders.drop_first()
            } else {
                old(self)@.orders
            }),
    {
        let ghost before = self.queue@;
        if let Some((_, volume)) = self.queue.pop_front() {
            proof {
                lemma_volume_sum_head(before);
                assert(self.queue@ =~= before.drop_first());
                assert(volumes_ok(self.queue@)) by {
                    assert forall|i: int| 0 <= i < self.queue@.len() implies 0 <= (
                    #[trigger] self.queue@[i]).1 <= MAX_MANTISSA by {
                        assert(self.queue@[i] == before[i + 1]);
                    }
                }
                lemma_volume_sum_nonnegative(self.queue@);
                assert(before[0].1 >= 0);
            }
            self.total = self.total - volume;
        }
    }

    /// Gives the oldest order the remaining volume `volume`, and the total what
    /// that changes. An empty level stays as it is.
    pub fn set_head_volume(&mut self, volume: i128)
        requires
            old(self).wf(),
            0 <= volume <= MAX_MANTISSA,
            old(self)@.orders.len() > 0 ==> old(self).total - old(self)@.orders[0].1 + volume
                <= i128::MAX,
        ensures
            final(self).wf(),
            final(self)@.price == old(self)@.price,
            final(self)@.orders == (if old(self)@.orders.len() > 0 {
                old(self)@.orders.update(0, (old(self)@.orders[0].0, volume))
            } else {
                old(self)@.orders
            }),
    {
        let ghost before = self.queue@;
        if let Some((id, previous)) = self.queue.pop_front() {
            let ghost rest = self.queue@;
            self.queue.push_front((id, volume));
            proof {
                lemma_volume_sum_head(before);
                lemma_volume_sum_head(self.queue@);
                assert(rest =~= before.drop_first());
                assert(self.queue@.drop_first() =~= rest);
                assert(self.queue@ =~= before.update(0, (id, volume)));
                assert(volumes_ok(rest)) by {
                    assert forall|i: int| 0 <= i < rest.len() implies 0 <= (
                    #[trigger] rest[i]).1 <= MAX_MANTISSA by {
                        assert(rest[i] == before[i + 1]);
                    }
                }
                lemma_volume_sum_nonnegative(rest);
                assert(before[0].1 >= 0);
            }
            self.total = self.total - previous + volume;
        }
    }
}

} // verus!
