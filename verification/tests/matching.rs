use matched_trading::book::Book;
use matched_trading::decimal::{OrderError, Scaled};
use matched_trading::level::PriceLevel;
use matched_trading::{Direction, Fixed, OrderBook, Price, Volume};

fn dec(mantissa: i128, scale: u32) -> Scaled {
    Scaled::new(mantissa, scale)
}

fn whole(n: i128) -> Scaled {
    Scaled::new(n, 0)
}

/// The events as (id, mantissa at six fractional digits).
fn units(events: &[(usize, Volume)]) -> Vec<(usize, i128)> {
    events.iter().map(|e| (e.0, e.1.value.mantissa)).collect()
}

const UNIT: i128 = 1_000_000;

#[test]
fn exact_match_empties_both_sides() {
    let mut book = OrderBook::new(6, 6);
    assert_eq!(book.add(Direction::Ask, 1, dec(666, 3), whole(1000)), Ok(()));
    assert_eq!(book.add(Direction::Bid, 2, dec(666, 3), whole(1000)), Ok(()));
    let events = book.trade();
    assert_eq!(units(&events), vec![(1, 0), (2, 0)]);
    assert!(events.iter().all(|e| e.1.value.scale == 6));
    assert_eq!(book.ask.best_price(), None);
    assert_eq!(book.bid.best_price(), None);
    assert!(book.ask.levels.is_empty());
    assert!(book.bid.levels.is_empty());
}

#[test]
fn bid_outlasts_ask() {
    let mut book = OrderBook::new(6, 6);
    book.add(Direction::Ask, 1, dec(666, 3), whole(1000)).unwrap();
    book.add(Direction::Bid, 2, dec(666, 3), whole(1500)).unwrap();
    let events = book.trade();
    assert_eq!(units(&events), vec![(1, 0), (2, 500 * UNIT)]);
    assert_eq!(book.bid.best_head(), Some((2, 500 * UNIT)));
    assert_eq!(
        book.bid.best_price(),
        Some(Price::new(Direction::Bid, dec(666_000, 6)))
    );
    assert_eq!(book.bid.best_price().map(|p| p.value.mantissa), Some(666_000));
    assert_eq!(book.ask.best_head(), None);
}

#[test]
fn ask_outlasts_bid() {
    let mut book = OrderBook::new(6, 6);
    book.add(Direction::Ask, 1, dec(666, 3), whole(1500)).unwrap();
    book.add(Direction::Bid, 2, dec(666, 3), whole(1000)).unwrap();
    let events = book.trade();
    assert_eq!(units(&events), vec![(1, 500 * UNIT), (2, 0)]);
    assert_eq!(book.ask.best_head(), Some((1, 500 * UNIT)));
    assert_eq!(book.bid.best_head(), None);
}

#[test]
fn earlier_bid_fills_first_and_ask_sweeps() {
    let mut book = OrderBook::new(6, 6);
    book.add(Direction::Bid, 2, dec(666, 3), whole(666)).unwrap();
    book.add(Direction::Bid, 3, dec(666, 3), whole(777)).unwrap();
    book.add(Direction::Ask, 1, dec(666, 3), whole(1000)).unwrap();
    let events = book.trade();
    assert_eq!(
        units(&events),
        vec![(1, 334 * UNIT), (2, 0), (1, 0), (3, 443 * UNIT)]
    );
    assert_eq!(book.bid.best_head(), Some((3, 443 * UNIT)));
    assert_eq!(book.ask.best_head(), None);
}

#[test]
fn no_cross_leaves_both_resting() {
    let mut book = OrderBook::new(6, 6);
    book.add(Direction::Ask, 1, dec(700, 3), whole(100)).unwrap();
    book.add(Direction::Bid, 2, dec(600, 3), whole(100)).unwrap();
    assert!(!book.is_matching());
    let events = book.trade();
    assert!(events.is_empty());
    assert_eq!(book.ask.best_head(), Some((1, 100 * UNIT)));
    assert_eq!(book.bid.best_head(), Some((2, 100 * UNIT)));
}

#[test]
fn best_ask_is_matched_before_a_worse_one() {
    let mut book = OrderBook::new(6, 6);
    book.add(Direction::Ask, 1, dec(700, 3), whole(100)).unwrap();
    book.add(Direction::Ask, 2, dec(650, 3), whole(100)).unwrap();
    book.add(Direction::Bid, 3, dec(680, 3), whole(150)).unwrap();
    let events = book.trade();
    assert_eq!(units(&events), vec![(2, 0), (3, 50 * UNIT)]);
    assert_eq!(book.bid.best_price().map(|p| p.value.mantissa), Some(680_000));
    assert_eq!(book.bid.best_head(), Some((3, 50 * UNIT)));
    assert_eq!(book.ask.best_price().map(|p| p.value.mantissa), Some(700_000));
    assert_eq!(book.ask.best_head(), Some((1, 100 * UNIT)));
}

#[test]
fn best_bid_is_matched_before_a_worse_one() {
    let mut book = OrderBook::new(0, 2);
    book.add(Direction::Bid, 1, dec(100, 2), whole(5)).unwrap();
    book.add(Direction::Bid, 2, dec(120, 2), whole(5)).unwrap();
    book.add(Direction::Bid, 3, dec(110, 2), whole(5)).unwrap();
    assert_eq!(book.bid.best_price().map(|p| p.value.mantissa), Some(120));
    book.add(Direction::Ask, 4, dec(105, 2), whole(12)).unwrap();
    let events = book.trade();
    assert_eq!(units(&events), vec![(4, 7), (2, 0), (4, 2), (3, 0)]);
    assert_eq!(book.ask.best_head(), Some((4, 2)));
    assert_eq!(book.bid.best_head(), Some((1, 5)));
    assert!(!book.is_matching());
}

#[test]
fn price_is_truncated_at_ingress() {
    let mut book = OrderBook::new(6, 2);
    book.add(Direction::Ask, 1, dec(6699, 4), whole(10)).unwrap();
    assert_eq!(book.ask.best_price().map(|p| p.value.mantissa), Some(66));
    book.add(Direction::Bid, 2, dec(66, 2), whole(10)).unwrap();
    let events = book.trade();
    assert_eq!(units(&events), vec![(1, 0), (2, 0)]);
}

#[test]
fn floor_drops_digits_beyond_the_scale() {
    assert_eq!(dec(666666661, 9).floor_to(6), Ok(dec(666666, 6)));
    assert_eq!(dec(6699, 4).floor_to(2), Ok(dec(66, 2)));
    assert_eq!(dec(1999, 3).floor_to(0), Ok(dec(1, 0)));
}

#[test]
fn floor_of_a_negative_number_goes_down() {
    assert_eq!(dec(-6691, 4).floor_to(2), Ok(dec(-67, 2)));
    assert_eq!(dec(-5, 1).floor_to(0), Ok(dec(-1, 0)));
    assert_eq!(dec(-6700, 4).floor_to(2), Ok(dec(-67, 2)));
}

#[test]
fn floor_to_more_digits_keeps_the_value() {
    assert_eq!(dec(666, 3).floor_to(6), Ok(dec(666000, 6)));
    assert_eq!(dec(-15, 1).floor_to(3), Ok(dec(-1500, 3)));
    assert_eq!(dec(7, 0).floor_to(0), Ok(dec(7, 0)));
}

#[test]
fn floor_rejects_what_a_decimal_cannot_hold() {
    let max: i128 = 79228162514264337593543950335;
    assert_eq!(dec(1, 29).floor_to(2), Err(OrderError::OutOfRange));
    assert_eq!(dec(1, 2).floor_to(29), Err(OrderError::OutOfRange));
    assert_eq!(dec(max + 1, 0).floor_to(0), Err(OrderError::OutOfRange));
    assert_eq!(dec(-max - 1, 0).floor_to(0), Err(OrderError::OutOfRange));
    assert_eq!(dec(max, 0).floor_to(1), Err(OrderError::Overflow));
    assert_eq!(dec(max, 0).floor_to(0), Ok(dec(max, 0)));
    assert_eq!(dec(max, 28).floor_to(0), Ok(dec(7, 0)));
    assert_eq!(dec(-max, 28).floor_to(0), Ok(dec(-8, 0)));
}

#[test]
fn add_rejects_a_negative_volume_and_keeps_the_book() {
    let mut book = OrderBook::new(6, 6);
    book.add(Direction::Bid, 1, dec(5, 1), whole(3)).unwrap();
    assert_eq!(
        book.add(Direction::Bid, 2, dec(5, 1), dec(-1, 3)),
        Err(OrderError::NegativeVolume)
    );
    assert_eq!(book.bid.levels.len(), 1);
    assert_eq!(book.bid.levels[0].queue.len(), 1);
    assert_eq!(book.bid.levels[0].total, 3 * UNIT);
}

#[test]
fn add_rejects_numbers_out_of_range() {
    let mut book = OrderBook::new(6, 6);
    assert_eq!(
        book.add(Direction::Ask, 1, dec(1, 40), whole(1)),
        Err(OrderError::OutOfRange)
    );
    assert_eq!(
        book.add(Direction::Ask, 1, whole(1), dec(i128::MAX, 0)),
        Err(OrderError::OutOfRange)
    );
    assert_eq!(
        book.add(Direction::Ask, 1, whole(79228162514264337593543950335), whole(1)),
        Err(OrderError::Overflow)
    );
    assert!(book.ask.levels.is_empty());
    let mut odd = OrderBook::new(-1, 6);
    assert_eq!(
        odd.add(Direction::Ask, 1, whole(1), whole(1)),
        Err(OrderError::OutOfRange)
    );
    let mut wide = OrderBook::new(6, 29);
    assert_eq!(
        wide.add(Direction::Ask, 1, whole(1), whole(1)),
        Err(OrderError::OutOfRange)
    );
    assert!(wide.trade().is_empty());
}

#[test]
fn trade_twice_reports_nothing_the_second_time() {
    let mut book = OrderBook::new(6, 6);
    book.add(Direction::Bid, 2, dec(666, 3), whole(666)).unwrap();
    book.add(Direction::Bid, 3, dec(660, 3), whole(777)).unwrap();
    book.add(Direction::Ask, 1, dec(661, 3), whole(1000)).unwrap();
    let first = book.trade();
    assert_eq!(units(&first), vec![(1, 334 * UNIT), (2, 0)]);
    let bid_before = book.bid.best_head();
    let ask_before = book.ask.best_head();
    let second = book.trade();
    assert!(second.is_empty());
    assert_eq!(book.bid.best_head(), bid_before);
    assert_eq!(book.ask.best_head(), ask_before);
    assert_eq!(book.ask.best_head(), Some((1, 334 * UNIT)));
    assert_eq!(book.bid.best_head(), Some((3, 777 * UNIT)));
}

#[test]
fn sides_do_not_cross_after_trade() {
    let mut book = OrderBook::new(2, 2);
    let prices = [101, 99, 100, 102, 98, 100];
    for (i, p) in prices.iter().enumerate() {
        book.add(Direction::Ask, i, dec(*p, 2), whole(3)).unwrap();
        book.add(Direction::Bid, 100 + i, dec(*p, 2), whole(2)).unwrap();
        book.trade();
        assert!(!book.is_matching());
        match (book.bid.best_price(), book.ask.best_price()) {
            (Some(b), Some(a)) => assert!(b.value.mantissa < a.value.mantissa),
            _ => {}
        }
    }
}

#[test]
fn matching_takes_the_same_volume_from_each_side() {
    let mut book = OrderBook::new(0, 0);
    book.add(Direction::Ask, 1, whole(10), whole(7)).unwrap();
    book.add(Direction::Ask, 2, whole(11), whole(5)).unwrap();
    book.add(Direction::Bid, 3, whole(12), whole(9)).unwrap();
    book.add(Direction::Bid, 4, whole(9), whole(4)).unwrap();
    let events = book.trade();
    assert_eq!(units(&events), vec![(1, 0), (3, 2), (2, 3), (3, 0)]);
    let ask_left: i128 = book.ask.levels.iter().map(|l| l.total).sum();
    let bid_left: i128 = book.bid.levels.iter().map(|l| l.total).sum();
    assert_eq!(12 - ask_left, 13 - bid_left);
    assert_eq!(ask_left, 3);
    assert_eq!(bid_left, 4);
}

#[test]
fn zero_volume_order_that_crosses_is_removed() {
    let mut book = OrderBook::new(0, 0);
    book.add(Direction::Bid, 1, whole(10), whole(5)).unwrap();
    book.add(Direction::Ask, 2, whole(12), whole(5)).unwrap();
    assert!(book.trade().is_empty());
    book.add(Direction::Ask, 9, whole(10), whole(0)).unwrap();
    let events = book.trade();
    assert_eq!(units(&events), vec![(9, 0), (1, 5)]);
    assert_eq!(book.bid.best_head(), Some((1, 5)));
    assert_eq!(book.ask.best_head(), Some((2, 5)));
    assert_eq!(book.ask.levels.len(), 1);
    assert_eq!(book.bid.levels.len(), 1);
}

#[test]
fn zero_volume_order_that_does_not_cross_rests() {
    let mut book = OrderBook::new(0, 0);
    book.add(Direction::Ask, 9, whole(10), whole(0)).unwrap();
    assert!(book.trade().is_empty());
    assert_eq!(book.ask.best_head(), Some((9, 0)));
}

#[test]
fn level_total_is_the_sum_of_its_queue() {
    let mut level = PriceLevel::new(42);
    assert!(level.is_empty());
    assert_eq!(level.head(), None);
    level.push(1, 10).unwrap();
    level.push(2, 20).unwrap();
    level.push(3, 30).unwrap();
    assert_eq!(level.total, 60);
    assert_eq!(level.head(), Some((1, 10)));
    level.set_head_volume(4);
    assert_eq!(level.total, 54);
    assert_eq!(level.head(), Some((1, 4)));
    level.pop_head();
    assert_eq!(level.total, 50);
    assert_eq!(level.head(), Some((2, 20)));
    level.pop_head();
    level.pop_head();
    assert_eq!(level.total, 0);
    assert!(level.is_empty());
    level.pop_head();
    level.set_head_volume(3);
    assert_eq!(level.total, 0);
    assert!(level.is_empty());
    assert_eq!(level.price, 42);
}

#[test]
fn level_push_reports_a_total_out_of_range() {
    let mut level = PriceLevel::new(1);
    level.push(1, i128::MAX).unwrap();
    assert_eq!(level.push(2, 1), Err(OrderError::Overflow));
    assert_eq!(level.total, i128::MAX);
    assert_eq!(level.queue.len(), 1);
    assert_eq!(level.push(3, 0), Ok(()));
}

#[test]
fn book_has_a_best_price_exactly_when_it_holds_a_level() {
    let mut book = Book::new(Direction::Ask, 2);
    assert_eq!(book.best_price(), None);
    assert_eq!(book.best_head(), None);
    book.pop_best_head();
    book.decrement_best_head(3);
    assert!(book.levels.is_empty());
    book.insert(1, 50, 5).unwrap();
    assert_eq!(book.best_price().map(|p| p.value.mantissa), Some(50));
    book.insert(2, 40, 6).unwrap();
    book.insert(3, 60, 7).unwrap();
    book.insert(4, 40, 8).unwrap();
    assert_eq!(book.best_price().map(|p| p.value.mantissa), Some(40));
    assert_eq!(book.levels.len(), 3);
    let prices: Vec<i128> = book.levels.iter().map(|l| l.price).collect();
    assert_eq!(prices, vec![60, 50, 40]);
    assert_eq!(book.best_head(), Some((2, 6)));
    book.decrement_best_head(1);
    assert_eq!(book.best_head(), Some((2, 1)));
    assert_eq!(book.levels[2].total, 9);
    book.decrement_best_head(0);
    assert_eq!(book.best_head(), Some((4, 8)));
    book.pop_best_head();
    assert_eq!(book.best_price().map(|p| p.value.mantissa), Some(50));
    book.pop_best_head();
    book.pop_best_head();
    assert_eq!(book.best_price(), None);
    assert!(book.levels.is_empty());
}

#[test]
fn bid_book_keeps_the_highest_price_best() {
    let mut book = Book::new(Direction::Bid, 2);
    book.insert(1, 50, 5).unwrap();
    book.insert(2, 40, 6).unwrap();
    book.insert(3, 60, 7).unwrap();
    book.insert(4, -5, 1).unwrap();
    let prices: Vec<i128> = book.levels.iter().map(|l| l.price).collect();
    assert_eq!(prices, vec![-5, 40, 50, 60]);
    assert_eq!(book.best_price().map(|p| p.value.mantissa), Some(60));
}

#[test]
fn book_insert_reports_a_level_total_out_of_range() {
    let mut book = Book::new(Direction::Bid, 2);
    book.insert(1, 50, i128::MAX).unwrap();
    assert_eq!(book.insert(2, 50, 1), Err(OrderError::Overflow));
    assert_eq!(book.levels.len(), 1);
    assert_eq!(book.levels[0].queue.len(), 1);
    assert_eq!(book.insert(2, 51, 1), Ok(()));
    assert_eq!(book.best_head(), Some((2, 1)));
}

#[test]
fn volume_floor_and_zero() {
    let mut v = Volume::new(dec(12345, 3));
    assert_eq!(v.floor(1), Ok(()));
    assert_eq!(v.value, dec(123, 1));
    assert!(!v.is_zero());
    let mut small = Volume::new(dec(9, 1));
    small.floor(0).unwrap();
    assert!(small.is_zero());
    let mut bad = Volume::new(dec(1, 30));
    assert_eq!(bad.floor(0), Err(OrderError::OutOfRange));
    assert_eq!(bad.value, dec(1, 30));
}

#[test]
fn fixed_keeps_its_scales() {
    let f = Fixed::new(8, 6);
    assert_eq!(f.base, 8);
    assert_eq!(f.quote, 6);
    let book = OrderBook::new(8, 6);
    assert_eq!(book.fixed, f);
}
