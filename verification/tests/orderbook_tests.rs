use clob::order::Order;
use clob::orderbook::{fill_at_price_level, BookError, OrderBook};

#[test]
fn test_bid_max() {
    let mut book = OrderBook::default();
    book.limit(Order::new(true, 10, 10, 1));
    book.limit(Order::new(true, 20, 10, 2));
    book.limit(Order::new(true, 30, 10, 3));
    assert_eq!(book.bid_max(), 30);
    assert_eq!(book.ask_min(), u64::MAX);
}

#[test]
fn test_ask_min() {
    let mut book = OrderBook::default();
    book.limit(Order::new(false, 10, 10, 1));
    book.limit(Order::new(false, 20, 10, 2));
    book.limit(Order::new(false, 30, 10, 3));
    assert_eq!(book.bid_max(), 0);
    assert_eq!(book.ask_min(), 10);
}

#[test]
fn test_crossing_bid_max() {
    let mut book = OrderBook::default();
    book.limit(Order::new(true, 10, 10, 1));
    book.limit(Order::new(true, 20, 10, 2));
    book.limit(Order::new(true, 30, 10, 3));
    book.limit(Order::new(false, 25, 10, 5));
    assert_eq!(book.bid_max(), 20);
    assert_eq!(book.ask_min(), u64::MAX);
}

#[test]
fn test_crossing_ask_min() {
    let mut book = OrderBook::default();
    book.limit(Order::new(false, 10, 10, 1));
    book.limit(Order::new(false, 20, 10, 2));
    book.limit(Order::new(false, 30, 10, 3));
    book.limit(Order::new(true, 25, 10, 5));
    assert_eq!(book.bid_max(), 0);
    assert_eq!(book.ask_min(), 20);
}

#[test]
fn test_resting_bid_ask() {
    let mut book = OrderBook::default();
    book.limit(Order::new(true, 10, 10, 1));
    book.limit(Order::new(true, 20, 10, 2));
    book.limit(Order::new(false, 30, 10, 3));
    book.limit(Order::new(false, 25, 10, 5));
    assert_eq!(book.bid_max(), 20);
    assert_eq!(book.ask_min(), 25);
}

#[test]
fn test_fill_at_price_level() {
    let mut level = vec![Order::new(true, 10, 10, 1), Order::new(true, 10, 10, 2)];
    let (remaining_amount, fills) = fill_at_price_level(&mut level, 10);
    assert_eq!(remaining_amount, 0);
    assert_eq!(fills.len(), 1);
    assert_eq!(fills[0].oid, 1);
}

#[test]
fn partial_level_fill_leaves_next_order_at_head() {
    let mut level = vec![Order::new(true, 10, 10, 1), Order::new(true, 10, 10, 2)];
    let (remaining_amount, fills) = fill_at_price_level(&mut level, 10);
    assert_eq!(remaining_amount, 0);
    assert_eq!(fills.len(), 1);
    assert_eq!(level.len(), 1);
    assert_eq!(level[0].oid, 2);
    assert_eq!(level[0].sz, 10);
}

#[test]
fn taker_sell_emits_fill_against_best_bid() {
    let mut book = OrderBook::default();
    book.limit(Order::new(true, 10, 10, 1));
    book.limit(Order::new(true, 20, 10, 2));
    book.limit(Order::new(true, 30, 10, 3));
    let (rem, fills) = book.limit(Order::new(false, 25, 10, 5));
    assert_eq!(rem, 0);
    assert_eq!(fills.len(), 1);
    assert_eq!(fills[0].maker_oid, 3);
    assert_eq!(fills[0].taker_oid, 5);
    assert_eq!(fills[0].sz, 10);
    assert_eq!(book.bid_max(), 20);
}

#[test]
fn partial_maker_fill_shrinks_maker_in_place() {
    let mut book = OrderBook::default();
    book.limit(Order::new(false, 10, 10, 1));
    let (rem, fills) = book.limit(Order::new(true, 10, 4, 2));
    assert_eq!(rem, 0);
    assert_eq!(fills.len(), 1);
    assert_eq!(fills[0].maker_oid, 1);
    assert_eq!(fills[0].sz, 4);
    // the maker keeps its queue position with the reduced size
    let (rem2, fills2) = book.limit(Order::new(true, 10, 6, 3));
    assert_eq!(rem2, 0);
    assert_eq!(fills2.len(), 1);
    assert_eq!(fills2[0].maker_oid, 1);
    assert_eq!(fills2[0].sz, 6);
    assert_eq!(book.ask_min(), u64::MAX);
}

#[test]
fn fifo_within_level() {
    let mut book = OrderBook::default();
    book.limit(Order::new(true, 10, 10, 1));
    book.limit(Order::new(true, 10, 10, 2));
    let (rem, fills) = book.limit(Order::new(false, 10, 10, 3));
    assert_eq!(rem, 0);
    assert_eq!(fills.len(), 1);
    assert_eq!(fills[0].maker_oid, 1);
    assert_eq!(book.bid_max(), 10);
}

#[test]
fn price_priority_sweeps_levels_in_order() {
    let mut book = OrderBook::default();
    book.limit(Order::new(false, 10, 5, 1));
    book.limit(Order::new(false, 20, 5, 2));
    book.limit(Order::new(false, 30, 5, 3));
    let (rem, fills) = book.limit(Order::new(true, 20, 12, 4));
    assert_eq!(rem, 2);
    assert_eq!(fills.len(), 2);
    assert_eq!(fills[0].maker_oid, 1);
    assert_eq!(fills[0].sz, 5);
    assert_eq!(fills[1].maker_oid, 2);
    assert_eq!(fills[1].sz, 5);
    // the residual rests on the bid side at its own limit price
    assert_eq!(book.bid_max(), 20);
    assert_eq!(book.ask_min(), 30);
}

#[test]
fn cancel_removes_order_and_empty_level() {
    let mut book = OrderBook::default();
    book.limit(Order::new(true, 10, 10, 1));
    book.limit(Order::new(true, 20, 10, 2));
    assert!(book.cancel(2).is_ok());
    assert_eq!(book.bid_max(), 10);
    assert!(matches!(book.cancel(2), Err(BookError::OidNotFound)));
    assert!(matches!(book.cancel(7), Err(BookError::OidNotFound)));
}

#[test]
fn cancel_then_book_matches_as_before() {
    let mut book = OrderBook::default();
    book.limit(Order::new(false, 10, 10, 1));
    book.limit(Order::new(false, 10, 10, 2));
    assert!(book.cancel(1).is_ok());
    let (rem, fills) = book.limit(Order::new(true, 10, 10, 3));
    assert_eq!(rem, 0);
    assert_eq!(fills.len(), 1);
    assert_eq!(fills[0].maker_oid, 2);
}

#[test]
fn exact_crossing_consumes_whole_levels() {
    let mut book = OrderBook::default();
    book.limit(Order::new(false, 10, 5, 1));
    book.limit(Order::new(false, 20, 5, 2));
    let (rem, fills) = book.limit(Order::new(true, 20, 10, 3));
    assert_eq!(rem, 0);
    assert_eq!(fills.len(), 2);
    assert_eq!(book.ask_min(), u64::MAX);
    assert_eq!(book.bid_max(), 0);
}

#[test]
fn empty_book_sentinels_and_first_rest() {
    let mut book = OrderBook::default();
    assert_eq!(book.bid_max(), 0);
    assert_eq!(book.ask_min(), u64::MAX);
    let (rem, fills) = book.limit(Order::new(true, 7, 3, 1));
    assert_eq!(rem, 3);
    assert_eq!(fills.len(), 0);
    assert_eq!(book.bid_max(), 7);
}
