use matched_trading::book::has_priority;
use matched_trading::decimal::{power_of_ten, OrderError, Rank, Scaled};
use matched_trading::order_book::places;
use matched_trading::price::not_below;
use matched_trading::{Direction, OrderBook, Price, Volume};

fn ask(mantissa: i128, scale: u32) -> Price {
    Price::new(Direction::Ask, Scaled::new(mantissa, scale))
}

fn bid(mantissa: i128, scale: u32) -> Price {
    Price::new(Direction::Bid, Scaled::new(mantissa, scale))
}

#[test]
fn lower_ask_is_greater() {
    assert_eq!(ask(650, 3).cmp(&ask(700, 3)), Rank::More);
    assert_eq!(ask(700, 3).cmp(&ask(650, 3)), Rank::Less);
    assert_eq!(ask(700, 3).cmp(&ask(700, 3)), Rank::Same);
    assert!(ask(650, 3).outranks(&ask(700, 3)));
    assert!(!ask(700, 3).outranks(&ask(700, 3)));
}

#[test]
fn higher_bid_is_greater() {
    assert_eq!(bid(650, 3).cmp(&bid(700, 3)), Rank::Less);
    assert_eq!(bid(700, 3).cmp(&bid(650, 3)), Rank::More);
    assert_eq!(bid(-1, 0).cmp(&bid(0, 5)), Rank::Less);
    assert!(bid(700, 3).outranks(&bid(650, 3)));
    assert!(!bid(650, 3).outranks(&bid(700, 3)));
}

#[test]
fn prices_compare_by_value_across_scales() {
    assert_eq!(bid(7, 1).cmp(&bid(700, 3)), Rank::Same);
    assert_eq!(bid(7, 1).cmp(&bid(6999, 4)), Rank::More);
    assert_eq!(ask(7, 1).cmp(&ask(6999, 4)), Rank::Less);
    let max: i128 = 79228162514264337593543950335;
    assert_eq!(bid(max, 0).cmp(&bid(max, 28)), Rank::More);
    assert_eq!(bid(-max, 0).cmp(&bid(max, 28)), Rank::Less);
    assert_eq!(bid(0, 0).cmp(&bid(0, 28)), Rank::Same);
}

#[test]
fn prices_of_different_sides_are_not_compared() {
    assert_eq!(ask(1, 0).partial_cmp(&bid(1, 0)), None);
    assert_eq!(bid(1, 0).partial_cmp(&ask(2, 0)), None);
    assert_eq!(ask(1, 0).partial_cmp(&ask(2, 0)), Some(Rank::More));
    assert_eq!(bid(1, 0).partial_cmp(&bid(2, 0)), Some(Rank::Less));
    assert_eq!(bid(20, 1).partial_cmp(&bid(2, 0)), Some(Rank::Same));
}

#[test]
fn price_floor_keeps_the_side() {
    let mut p = ask(666666661, 9);
    assert_eq!(p.floor(6), Ok(()));
    assert_eq!(p, ask(666666, 6));
    let mut q = bid(1, 40);
    assert_eq!(q.floor(6), Err(OrderError::OutOfRange));
    assert_eq!(q, bid(1, 40));
    let mut wide = bid(79228162514264337593543950335, 0);
    assert_eq!(wide.floor(1), Err(OrderError::Overflow));
}

#[test]
fn not_below_orders_numbers_by_value() {
    assert!(not_below(Scaled::new(666, 3), Scaled::new(666000, 6)));
    assert!(not_below(Scaled::new(667, 3), Scaled::new(666000, 6)));
    assert!(!not_below(Scaled::new(665, 3), Scaled::new(666000, 6)));
    assert!(!not_below(Scaled::new(-1, 0), Scaled::new(0, 0)));
}

#[test]
fn priority_on_each_side() {
    assert!(has_priority(Direction::Ask, 2, 99, 100));
    assert!(!has_priority(Direction::Ask, 2, 100, 100));
    assert!(!has_priority(Direction::Ask, 2, 101, 100));
    assert!(has_priority(Direction::Bid, 2, 101, 100));
    assert!(!has_priority(Direction::Bid, 2, 100, 100));
    assert!(!has_priority(Direction::Bid, 2, -101, 100));
}

#[test]
fn powers_of_ten() {
    assert_eq!(power_of_ten(0), 1);
    assert_eq!(power_of_ten(6), 1_000_000);
    assert_eq!(power_of_ten(28), 10_000_000_000_000_000_000_000_000_000);
}

#[test]
fn places_are_digit_counts_a_decimal_can_have() {
    assert_eq!(places(0), Some(0));
    assert_eq!(places(28), Some(28));
    assert_eq!(places(29), None);
    assert_eq!(places(-1), None);
}

#[test]
fn equal_prices_on_both_sides_cross() {
    let mut book = OrderBook::new(0, 3);
    book.add(Direction::Ask, 1, Scaled::new(5, 1), Scaled::new(1, 0)).unwrap();
    assert!(!book.is_matching());
    book.add(Direction::Bid, 2, Scaled::new(500, 3), Scaled::new(1, 0)).unwrap();
    assert!(book.is_matching());
    assert_eq!(book.trade().len(), 2);
    assert!(!book.is_matching());
}

#[test]
fn partial_fill_is_the_difference_of_the_volumes() {
    let mut book = OrderBook::new(3, 0);
    book.add(Direction::Ask, 1, Scaled::new(5, 0), Scaled::new(12345, 4)).unwrap();
    book.add(Direction::Bid, 2, Scaled::new(5, 0), Scaled::new(2, 0)).unwrap();
    let events = book.trade();
    assert_eq!(events.len(), 2);
    assert_eq!(events[0].0, 1);
    assert!(events[0].1.is_zero());
    assert_eq!(events[1].0, 2);
    assert_eq!(events[1].1.value, Scaled::new(766, 3));
}

#[test]
fn volumes_add_and_subtract_in_place() {
    let mut v = Volume::new(Scaled::new(1500, 3));
    assert_eq!(v.add_assign(Volume::new(Scaled::new(250, 3))), Ok(()));
    assert_eq!(v.value, Scaled::new(1750, 3));
    v.sub_assign(Volume::new(Scaled::new(2000, 3)));
    assert_eq!(v.value, Scaled::new(-250, 3));
    let mut zero = Volume::new(Scaled::new(0, 3));
    zero.sub_assign(Volume::new(Scaled::new(0, 3)));
    assert_eq!(zero.value, Scaled::new(0, 3));
    assert!(zero.is_zero());
    zero.sub_assign(Volume::new(Scaled::new(7, 3)));
    assert_eq!(zero.value, Scaled::new(-7, 3));
}

#[test]
fn volume_sum_out_of_range_is_refused() {
    let max: i128 = 79228162514264337593543950335;
    let mut v = Volume::new(Scaled::new(max, 2));
    assert_eq!(
        v.add_assign(Volume::new(Scaled::new(1, 2))),
        Err(OrderError::Overflow)
    );
    assert_eq!(v.value, Scaled::new(max, 2));
    assert_eq!(v.add_assign(Volume::new(Scaled::new(0, 2))), Ok(()));
    assert_eq!(v.value, Scaled::new(max, 2));
    let mut w = Volume::new(Scaled::new(max - 5, 0));
    assert_eq!(w.add_assign(Volume::new(Scaled::new(5, 0))), Ok(()));
    assert_eq!(w.value, Scaled::new(max, 0));
    w.sub_assign(Volume::new(Scaled::new(max, 0)));
    assert!(w.is_zero());
}

#[test]
fn scales_a_decimal_cannot_have_count_as_none() {
    let f = matched_trading::Fixed::new(6, 40);
    assert_eq!(f.volume_places(), 6);
    assert_eq!(f.price_places(), 0);
    let g = matched_trading::Fixed::new(-3, 28);
    assert_eq!(g.volume_places(), 0);
    assert_eq!(g.price_places(), 28);
}

#[test]
fn volume_arithmetic_is_exact_on_wide_numbers() {
    let max: i128 = 79228162514264337593543950335;
    let wide: i128 = 1 << 70;
    let mut v = Volume::new(Scaled::new(0, 5));
    v.sub_assign(Volume::new(Scaled::new(max, 5)));
    assert_eq!(v.value, Scaled::new(-max, 5));
    let mut w = Volume::new(Scaled::new(max, 5));
    w.sub_assign(Volume::new(Scaled::new(1, 5)));
    assert_eq!(w.value, Scaled::new(max - 1, 5));
    let mut x = Volume::new(Scaled::new(wide, 28));
    x.sub_assign(Volume::new(Scaled::new(wide + 3, 28)));
    assert_eq!(x.value, Scaled::new(-3, 28));
    let mut y = Volume::new(Scaled::new(wide, 28));
    assert_eq!(y.add_assign(Volume::new(Scaled::new(wide, 28))), Ok(()));
    assert_eq!(y.value, Scaled::new(1 << 71, 28));
    let mut z = Volume::new(Scaled::new(u64::MAX as i128, 1));
    assert_eq!(z.add_assign(Volume::new(Scaled::new(1, 1))), Ok(()));
    assert_eq!(z.value, Scaled::new(1 << 64, 1));
    let mut small = Volume::new(Scaled::new(u32::MAX as i128, 3));
    assert_eq!(small.add_assign(Volume::new(Scaled::new(u32::MAX as i128, 3))), Ok(()));
    assert_eq!(small.value, Scaled::new(2 * (u32::MAX as i128), 3));
}

#[test]
fn wide_volumes_match_exactly() {
    let wide: i128 = 1 << 80;
    let mut book = OrderBook::new(0, 0);
    book.add(Direction::Ask, 1, Scaled::new(5, 0), Scaled::new(wide, 0)).unwrap();
    book.add(Direction::Bid, 2, Scaled::new(5, 0), Scaled::new(wide + 9, 0)).unwrap();
    let events = book.trade();
    assert_eq!(events[0].1.value, Scaled::new(0, 0));
    assert_eq!(events[1].1.value, Scaled::new(9, 0));
    assert_eq!(book.bid.best_head(), Some((2, 9)));
    assert_eq!(book.bid.levels[0].total, 9);
}
