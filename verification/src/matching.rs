//! What matching does to the two sides, stated on their models, and the laws
//! that follow.

use crate::book::{
    best_head_model, book_ok, insert_model, level_ok, outranks, pop_head_model, set_head_model, slot, Direction,
};
use crate::decimal::{in_range, MAX_MANTISSA};
use crate::level::{lemma_volume_sum_head, volume_sum, LevelModel};
use vstd::prelude::*;

verus! {

/// The two sides cross: both hold an order and the best bid is not below the
/// best ask.
pub open spec fn crossing(ask: Seq<LevelModel>, bid: Seq<LevelModel>) -> bool {
    ask.len() > 0 && bid.len() > 0 && bid.last().price >= ask.last().price
}

/// The number of orders resting on a side.
pub open spec fn order_count(b: Seq<LevelModel>) -> nat
    decreases b.len(),
{
    if b.len() == 0 {
        0
    } else {
        order_count(b.drop_last()) + b.last().orders.len()
    }
}

/// The volume resting on a side.
pub open spec fn resting(b: Seq<LevelModel>) -> int
    decreases b.len(),
{
    if b.len() == 0 {
        0
    } else {
        resting(b.drop_last()) + volume_sum(b.last().orders)
    }
}

/// The two events of one matching step: the ask's state, then the bid's.
pub open spec fn step_events(ask: Seq<LevelModel>, bid: Seq<LevelModel>) -> Seq<(usize, i128)> {
    let a = ask.last().orders[0];
    let b = bid.last().orders[0];
    if a.1 == b.1 {
        seq![(a.0, 0i128), (b.0, 0i128)]
    } else if a.1 < b.1 {
        seq![(a.0, 0i128), (b.0, (b.1 - a.1) as i128)]
    } else {
        seq![(a.0, (a.1 - b.1) as i128), (b.0, 0i128)]
    }
}

/// The ask side after one matching step.
pub open spec fn step_ask(ask: Seq<LevelModel>, bid: Seq<LevelModel>) -> Seq<LevelModel> {
    let a = ask.last().orders[0];
    let b = bid.last().orders[0];
    if a.1 <= b.1 {
        pop_head_model(ask)
    } else {
        set_head_model(ask, (a.1 - b.1) as i128)
    }
}

/// The bid side after one matching step.
pub open spec fn step_bid(ask: Seq<LevelModel>, bid: Seq<LevelModel>) -> Seq<LevelModel> {
    let a = ask.last().orders[0];
    let b = bid.last().orders[0];
    if a.1 >= b.1 {
        pop_head_model(bid)
    } else {
        set_head_model(bid, (b.1 - a.1) as i128)
    }
}

/// The outcome of matching: the events in the order they occurred, and the
/// two sides at rest.
pub struct Settlement {
    pub events: Seq<(usize, i128)>,
    pub ask: Seq<LevelModel>,
    pub bid: Seq<LevelModel>,
}

/// Matching from the sides `ask` and `bid`: while they cross, the oldest order
/// at the best ask meets the oldest order at the best bid.
pub open spec fn settle(ask: Seq<LevelModel>, bid: Seq<LevelModel>) -> Settlement
    decreases order_count(ask) + order_count(bid),
    when book_ok(Direction::Ask, ask) && book_ok(Direction::Bid, bid)
    via settle_decreases
{
    if crossing(ask, bid) {
        let rest = settle(step_ask(ask, bid), step_bid(ask, bid));
        Settlement {
            events: step_events(ask, bid) + rest.events,
            ask: rest.ask,
            bid: rest.bid,
        }
    } else {
        Settlement { events: Seq::empty(), ask, bid }
    }
}

#[via_fn]
proof fn settle_decreases(ask: Seq<LevelModel>, bid: Seq<LevelModel>) {
    if crossing(ask, bid) {
        lemma_step(ask, bid);
    }
}

/// Removing the head of the best level takes one order and its volume away,
/// and leaves a side that is in order.
pub proof fn lemma_pop_head(d: Direction, b: Seq<LevelModel>)
    requires
        book_ok(d, b),
        b.len() > 0,
    ensures
        book_ok(d, pop_head_model(b)),
        order_count(pop_head_model(b)) == order_count(b) - 1,
        resting(pop_head_model(b)) == resting(b) - b.last().orders[0].1,
{
    let l = b.last();
    let r = pop_head_model(b);
    assert(level_ok(l));
    lemma_volume_sum_head(l.orders);
    if l.orders.len() <= 1 {
        assert(l.orders.drop_first() =~= Seq::empty());
    } else {
        assert(r.drop_last() =~= b.drop_last());
        assert forall|i: int| 0 <= i < r.len() implies level_ok(#[trigger] r[i]) by {
            if i < r.len() - 1 {
                assert(r[i] == b[i]);
            } else {
                assert forall|k: int| 0 <= k < r[i].orders.len() implies 0 <= (
                #[trigger] r[i].orders[k]).1 <= MAX_MANTISSA by {
                    assert(r[i].orders[k] == l.orders[k + 1]);
                }
            }
        }
        assert forall|i: int, j: int| 0 <= i < j < r.len() implies outranks(
            d,
            (#[trigger] r[j]).price as int,
            (#[trigger] r[i]).price as int,
        ) by {
            assert(r[i] == b[i]);
            assert(r[j].price == b[j].price);
        }
    }
}

/// Leaving a positive volume to the head of the best level keeps every order,
/// changes the resting volume by the difference, and leaves a side that is in
/// order.
pub proof fn lemma_set_head(d: Direction, b: Seq<LevelModel>, volume: i128)
    requires
        book_ok(d, b),
        b.len() > 0,
        0 < volume <= MAX_MANTISSA,
    ensures
        book_ok(d, set_head_model(b, volume)),
        order_count(set_head_model(b, volume)) == order_count(b),
        resting(set_head_model(b, volume)) == resting(b) - b.last().orders[0].1 + volume,
{
    let l = b.last();
    let r = set_head_model(b, volume);
    assert(level_ok(l));
    lemma_volume_sum_head(l.orders);
    lemma_volume_sum_head(r.last().orders);
    assert(r.last().orders.drop_first() =~= l.orders.drop_first());
    assert(r.drop_last() =~= b.drop_last());
    assert forall|i: int| 0 <= i < r.len() implies level_ok(#[trigger] r[i]) by {
        if i < r.len() - 1 {
            assert(r[i] == b[i]);
        } else {
            assert forall|k: int| 0 <= k < r[i].orders.len() implies 0 <= (
            #[trigger] r[i].orders[k]).1 <= MAX_MANTISSA by {
                if k > 0 {
                    assert(r[i].orders[k] == l.orders[k]);
                }
            }
        }
    }
    assert forall|i: int, j: int| 0 <= i < j < r.len() implies outranks(
        d,
        (#[trigger] r[j]).price as int,
        (#[trigger] r[i]).price as int,
    ) by {
        assert(r[i] == b[i]);
        assert(r[j].price == b[j].price);
    }
}

/// One matching step leaves both sides in order, takes at least one order
/// away, and takes the same volume from each side.
pub proof fn lemma_step(ask: Seq<LevelModel>, bid: Seq<LevelModel>)
    requires
        book_ok(Direction::Ask, ask),
        book_ok(Direction::Bid, bid),
        crossing(ask, bid),
    ensures
        book_ok(Direction::Ask, step_ask(ask, bid)),
        book_ok(Direction::Bid, step_bid(ask, bid)),
        order_count(step_ask(ask, bid)) + order_count(step_bid(ask, bid)) < order_count(ask)
            + order_count(bid),
        resting(ask) - resting(step_ask(ask, bid)) == resting(bid) - resting(step_bid(ask, bid)),
        resting(step_ask(ask, bid)) <= resting(ask),
        order_count(step_ask(ask, bid)) <= order_count(ask),
        order_count(step_bid(ask, bid)) <= order_count(bid),
        step_events(ask, bid).len() == 2,
{
    let a = ask.last().orders[0];
    let b = bid.last().orders[0];
    assert(level_ok(ask.last()) && level_ok(bid.last()));
    assert(0 <= a.1 <= MAX_MANTISSA && 0 <= b.1 <= MAX_MANTISSA);
    if a.1 <= b.1 {
        lemma_pop_head(Direction::Ask, ask);
    } else {
        lemma_set_head(Direction::Ask, ask, (a.1 - b.1) as i128);
    }
    if a.1 >= b.1 {
        lemma_pop_head(Direction::Bid, bid);
    } else {
        lemma_set_head(Direction::Bid, bid, (b.1 - a.1) as i128);
    }
}

/// Matching ends with both sides in order and not crossing. It has taken the
/// same volume from each side, added no order to either, and reported at most
/// two events for each order that rested.
pub proof fn lemma_settle(ask: Seq<LevelModel>, bid: Seq<LevelModel>)
    requires
        book_ok(Direction::Ask, ask),
        book_ok(Direction::Bid, bid),
    ensures
        book_ok(Direction::Ask, settle(ask, bid).ask),
        book_ok(Direction::Bid, settle(ask, bid).bid),
        !crossing(settle(ask, bid).ask, settle(ask, bid).bid),
        resting(ask) - resting(settle(ask, bid).ask) == resting(bid) - resting(
            settle(ask, bid).bid,
        ),
        resting(settle(ask, bid).ask) <= resting(ask),
        settle(ask, bid).events.len() <= 2 * (order_count(ask) + order_count(bid)),
        order_count(settle(ask, bid).ask) <= order_count(ask),
        order_count(settle(ask, bid).bid) <= order_count(bid),
    decreases order_count(ask) + order_count(bid),
{
    if crossing(ask, bid) {
        lemma_step(ask, bid);
        lemma_settle(step_ask(ask, bid), step_bid(ask, bid));
    }
}

/// Matching what matching left changes nothing and reports nothing.
pub proof fn lemma_settle_idempotent(ask: Seq<LevelModel>, bid: Seq<LevelModel>)
    requires
        book_ok(Direction::Ask, ask),
        book_ok(Direction::Bid, bid),
    ensures
        settle(settle(ask, bid).ask, settle(ask, bid).bid) == (Settlement {
            events: Seq::empty(),
            ask: settle(ask, bid).ask,
            bid: settle(ask, bid).bid,
        }),
{
    lemma_settle(ask, bid);
}

/// The slot of a price lies within the side; the levels from it on outrank
/// the price, and the level before it does not.
pub proof fn lemma_slot(d: Direction, b: Seq<LevelModel>, price: int)
    ensures
        0 <= slot(d, b, price) <= b.len(),
        forall|j: int|
            slot(d, b, price) <= j < b.len() ==> outranks(d, (#[trigger] b[j]).price as int, price),
        slot(d, b, price) > 0 ==> !outranks(d, b[slot(d, b, price) - 1].price as int, price),
    decreases b.len(),
{
    if b.len() > 0 && outranks(d, b.last().price as int, price) {
        lemma_slot(d, b.drop_last(), price);
        assert forall|j: int| slot(d, b, price) <= j < b.len() implies outranks(
            d,
            (#[trigger] b[j]).price as int,
            price,
        ) by {
            if j < b.len() - 1 {
                assert(b[j] == b.drop_last()[j]);
            }
        }
        if slot(d, b, price) > 0 {
            assert(b[slot(d, b, price) - 1] == b.drop_last()[slot(d, b, price) - 1]);
        }
    }
}

/// A level put into a side adds its orders and its volume.
pub proof fn lemma_insert_level(b: Seq<LevelModel>, k: int, l: LevelModel)
    requires
        0 <= k <= b.len(),
    ensures
        resting(b.insert(k, l)) == resting(b) + volume_sum(l.orders),
        order_count(b.insert(k, l)) == order_count(b) + l.orders.len(),
    decreases b.len(),
{
    let r = b.insert(k, l);
    if k == b.len() {
        assert(r.drop_last() =~= b);
    } else {
        lemma_insert_level(b.drop_last(), k, l);
        assert(r.drop_last() =~= b.drop_last().insert(k, l));
        assert(r.last() == b.last());
    }
}

/// A level put in the place of another changes the side's orders and volume
/// by the difference between the two.
pub proof fn lemma_update_level(b: Seq<LevelModel>, k: int, l: LevelModel)
    requires
        0 <= k < b.len(),
    ensures
        resting(b.update(k, l)) == resting(b) - volume_sum(b[k].orders) + volume_sum(l.orders),
        order_count(b.update(k, l)) == order_count(b) - b[k].orders.len() + l.orders.len(),
    decreases b.len(),
{
    let r = b.update(k, l);
    if k == b.len() - 1 {
        assert(r.drop_last() =~= b.drop_last());
    } else {
        lemma_update_level(b.drop_last(), k, l);
        assert(r.drop_last() =~= b.drop_last().update(k, l));
        assert(r.last() == b.last());
    }
}

/// An order that arrives leaves the side in order, and adds one order and its
/// volume to it.
pub proof fn lemma_insert(d: Direction, b: Seq<LevelModel>, id: usize, price: i128, volume: i128)
    requires
        book_ok(d, b),
        in_range(price as int),
        0 <= volume <= MAX_MANTISSA,
    ensures
        book_ok(d, insert_model(d, b, id, price, volume)),
        resting(insert_model(d, b, id, price, volume)) == resting(b) + volume,
        order_count(insert_model(d, b, id, price, volume)) == order_count(b) + 1,
{
    let k = slot(d, b, price as int);
    let r = insert_model(d, b, id, price, volume);
    lemma_slot(d, b, price as int);
    if k > 0 && b[k - 1].price == price {
        let l = LevelModel { price, orders: b[k - 1].orders.push((id, volume)) };
        lemma_update_level(b, k - 1, l);
        assert(l.orders.drop_last() =~= b[k - 1].orders);
        assert(level_ok(b[k - 1]));
        assert forall|i: int| 0 <= i < r.len() implies level_ok(#[trigger] r[i]) by {
            if i != k - 1 {
                assert(r[i] == b[i]);
            } else {
                assert forall|n: int| 0 <= n < l.orders.len() implies 0 <= (
                #[trigger] l.orders[n]).1 <= MAX_MANTISSA by {
                    if n < l.orders.len() - 1 {
                        assert(l.orders[n] == b[k - 1].orders[n]);
                    }
                }
            }
        }
        assert forall|i: int, j: int| 0 <= i < j < r.len() implies outranks(
            d,
            (#[trigger] r[j]).price as int,
            (#[trigger] r[i]).price as int,
        ) by {
            assert(r[i].price == b[i].price && r[j].price == b[j].price);
        }
    } else {
        let l = LevelModel { price, orders: seq![(id, volume)] };
        lemma_insert_level(b, k, l);
        assert(l.orders.drop_last() =~= Seq::empty());
        assert(volume_sum(l.orders) == volume) by {
            assert(volume_sum(l.orders.drop_last()) == 0);
            assert(l.orders.last().1 == volume);
        }
        assert forall|i: int| 0 <= i < r.len() implies level_ok(#[trigger] r[i]) by {
            if i < k {
                assert(r[i] == b[i]);
            } else if i > k {
                assert(r[i] == b[i - 1]);
            }
        }
        assert forall|i: int, j: int| 0 <= i < j < r.len() implies outranks(
            d,
            (#[trigger] r[j]).price as int,
            (#[trigger] r[i]).price as int,
        ) by {
            if i < k && j > k {
                assert(r[i] == b[i] && r[j] == b[j - 1]);
            } else if i < k && j == k {
                assert(r[i] == b[i]);
                if i < k - 1 {
                    assert(outranks(d, b[k - 1].price as int, b[i].price as int));
                }
            } else if i == k {
                assert(r[j] == b[j - 1]);
            } else if j < k {
                assert(r[i] == b[i] && r[j] == b[j]);
            } else {
                assert(r[i] == b[i - 1] && r[j] == b[j - 1]);
            }
        }
    }
}

/// Volume is conserved over an arrival and the matching that follows. The
/// order adds its volume to its side; matching then takes the same volume,
/// the filled volume, from the asks and from the bids, and nothing else
/// changes what rests.
pub proof fn lemma_submission_conserves_volume(
    ask: Seq<LevelModel>,
    bid: Seq<LevelModel>,
    direction: Direction,
    id: usize,
    price: i128,
    volume: i128,
)
    requires
        book_ok(Direction::Ask, ask),
        book_ok(Direction::Bid, bid),
        in_range(price as int),
        0 <= volume <= MAX_MANTISSA,
    ensures
        ({
            let ask1 = if direction == Direction::Ask {
                insert_model(direction, ask, id, price, volume)
            } else {
                ask
            };
            let bid1 = if direction == Direction::Bid {
                insert_model(direction, bid, id, price, volume)
            } else {
                bid
            };
            let rest = settle(ask1, bid1);
            let filled = resting(ask1) - resting(rest.ask);
            &&& resting(ask1) + resting(bid1) == resting(ask) + resting(bid) + volume
            &&& filled >= 0
            &&& filled == resting(bid1) - resting(rest.bid)
            &&& resting(rest.ask) + resting(rest.bid) + 2 * filled == resting(ask) + resting(bid)
                + volume
        }),
{
    match direction {
        Direction::Ask => {
            lemma_insert(direction, ask, id, price, volume);
            lemma_settle(insert_model(direction, ask, id, price, volume), bid);
        },
        Direction::Bid => {
            lemma_insert(direction, bid, id, price, volume);
            lemma_settle(ask, insert_model(direction, bid, id, price, volume));
        },
    }
}

/// An ask of volume zero that arrives at a book at rest, at a price that the
/// best bid meets, is matched away at once against the oldest best bid, which
/// keeps all it had: two events, and both sides as they were before.
pub proof fn lemma_zero_volume_ask(
    ask: Seq<LevelModel>,
    bid: Seq<LevelModel>,
    id: usize,
    price: i128,
)
    requires
        book_ok(Direction::Ask, ask),
        book_ok(Direction::Bid, bid),
        !crossing(ask, bid),
        in_range(price as int),
        bid.len() > 0,
        bid.last().price >= price,
        bid.last().orders[0].1 > 0,
    ensures
        settle(insert_model(Direction::Ask, ask, id, price, 0), bid) == (Settlement {
            events: seq![(id, 0i128), bid.last().orders[0]],
            ask,
            bid,
        }),
{
    let ask1 = insert_model(Direction::Ask, ask, id, price, 0);
    lemma_insert(Direction::Ask, ask, id, price, 0);
    assert(level_ok(bid.last()));
    assert(ask1 =~= ask.push(LevelModel { price, orders: seq![(id, 0i128)] }));
    assert(crossing(ask1, bid));
    assert(step_ask(ask1, bid) =~= ask);
    assert(step_bid(ask1, bid) =~= bid) by {
        assert(bid.last().orders.update(0, bid.last().orders[0]) =~= bid.last().orders);
    }
    assert(ask1.last().orders[0] == (id, 0i128));
    let head = bid.last().orders[0];
    assert(step_events(ask1, bid) =~= seq![(id, 0i128), (head.0, head.1)]);
    assert(settle(ask, bid).events =~= Seq::empty());
    assert(settle(ask1, bid).events =~= seq![(id, 0i128), head]);
}

/// A bid of volume zero that arrives at a book at rest, at a price that
/// meets the best ask, is matched away at once against the oldest best ask,
/// which keeps all it had: two events, and both sides as they were before.
pub proof fn lemma_zero_volume_bid(
    ask: Seq<LevelModel>,
    bid: Seq<LevelModel>,
    id: usize,
    price: i128,
)
    requires
        book_ok(Direction::Ask, ask),
        book_ok(Direction::Bid, bid),
        !crossing(ask, bid),
        in_range(price as int),
        ask.len() > 0,
        ask.last().price <= price,
        ask.last().orders[0].1 > 0,
    ensures
        settle(ask, insert_model(Direction::Bid, bid, id, price, 0)) == (Settlement {
            events: seq![ask.last().orders[0], (id, 0i128)],
            ask,
            bid,
        }),
{
    let bid1 = insert_model(Direction::Bid, bid, id, price, 0);
    lemma_insert(Direction::Bid, bid, id, price, 0);
    assert(level_ok(ask.last()));
    assert(bid1 =~= bid.push(LevelModel { price, orders: seq![(id, 0i128)] }));
    assert(crossing(ask, bid1));
    assert(step_bid(ask, bid1) =~= bid);
    assert(step_ask(ask, bid1) =~= ask) by {
        assert(ask.last().orders.update(0, ask.last().orders[0]) =~= ask.last().orders);
    }
    assert(bid1.last().orders[0] == (id, 0i128));
    let head = ask.last().orders[0];
    assert(step_events(ask, bid1) =~= seq![(head.0, head.1), (id, 0i128)]);
    assert(settle(ask, bid).events =~= Seq::empty());
    assert(settle(ask, bid1).events =~= seq![head, (id, 0i128)]);
}

/// Matching a book whose sides do not cross reports nothing and changes
/// nothing.
pub proof fn lemma_rest_is_stable(ask: Seq<LevelModel>, bid: Seq<LevelModel>)
    requires
        book_ok(Direction::Ask, ask),
        book_ok(Direction::Bid, bid),
        !crossing(ask, bid),
    ensures
        settle(ask, bid) == (Settlement { events: Seq::empty(), ask, bid }),
{
}

/// Price and time priority: an order that arrives is the next to be matched
/// on its side only where its price outranks the best price there; otherwise
/// the oldest order at the best price stays the next.
pub proof fn lemma_arrival_keeps_priority(
    d: Direction,
    b: Seq<LevelModel>,
    id: usize,
    price: i128,
    volume: i128,
)
    requires
        book_ok(d, b),
        b.len() > 0,
    ensures
        best_head_model(insert_model(d, b, id, price, volume)) == (if outranks(
            d,
            price as int,
            b.last().price as int,
        ) {
            Some((id, volume))
        } else {
            best_head_model(b)
        }),
{
    lemma_slot(d, b, price as int);
    assert(level_ok(b.last()));
    let k = slot(d, b, price as int);
    if k > 0 {
        assert(level_ok(b[k - 1]));
    }
}

} // verus!
