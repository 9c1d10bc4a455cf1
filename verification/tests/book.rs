use orderbook::DecimalPair;
use orderbook::OrderBook;
use orderbook::Side;

fn dp(int: u32, frac: u32) -> DecimalPair {
    DecimalPair { int, frac }
}

fn strictly_decreasing(levels: &[(DecimalPair, DecimalPair)]) -> bool {
    levels.windows(2).all(|w| w[1].0.lt(&w[0].0))
}

fn strictly_increasing(levels: &[(DecimalPair, DecimalPair)]) -> bool {
    levels.windows(2).all(|w| w[0].0.lt(&w[1].0))
}

#[test]
fn new_book_is_empty() {
    let book = OrderBook::new();
    assert!(book.bids.is_empty());
    assert!(book.asks.is_empty());
    assert_eq!(book.best_bid(), None);
    assert_eq!(book.best_ask(), None);
}

#[test]
fn ordering_invariant_after_upserts() {
    let mut book = OrderBook::new();
    for (i, f) in [(100, 0), (99, 50), (101, 25), (100, 75), (99, 50), (102, 0)] {
        book.add_order(Side::Buy, dp(i, f), dp(1, 0));
        book.add_order(Side::Sell, dp(i, f), dp(1, 0));
    }
    assert!(strictly_decreasing(&book.bids));
    assert!(strictly_increasing(&book.asks));
    assert_eq!(book.bids.len(), 5);
    assert_eq!(book.asks.len(), 5);
    assert_eq!(book.best_bid(), Some((dp(102, 0), dp(1, 0))));
    assert_eq!(book.best_ask(), Some((dp(99, 50), dp(1, 0))));
}

#[test]
fn upsert_overwrites_in_place() {
    let mut book = OrderBook::new();
    book.add_order(Side::Buy, dp(100, 0), dp(1, 0));
    book.add_order(Side::Buy, dp(100, 0), dp(2, 5));
    assert_eq!(book.bids, vec![(dp(100, 0), dp(2, 5))]);
    assert!(book.asks.is_empty());
}

#[test]
fn upsert_idempotent() {
    let mut once = OrderBook::new();
    once.add_order(Side::Buy, dp(99, 5), dp(3, 0));
    once.add_order(Side::Sell, dp(101, 0), dp(4, 0));
    once.add_order(Side::Buy, dp(100, 0), dp(1, 0));

    let mut twice = OrderBook::new();
    twice.add_order(Side::Buy, dp(99, 5), dp(3, 0));
    twice.add_order(Side::Sell, dp(101, 0), dp(4, 0));
    twice.add_order(Side::Buy, dp(100, 0), dp(1, 0));
    twice.add_order(Side::Buy, dp(100, 0), dp(1, 0));

    assert_eq!(once.bids, twice.bids);
    assert_eq!(once.asks, twice.asks);
}

#[test]
fn remove_deletes_level() {
    let mut book = OrderBook::new();
    book.add_order(Side::Sell, dp(100, 50), dp(1, 5));
    book.add_order(Side::Sell, dp(101, 0), dp(3, 0));
    book.remove_order(Side::Sell, dp(100, 50));
    assert_eq!(book.asks, vec![(dp(101, 0), dp(3, 0))]);
}

#[test]
fn remove_absent_is_noop() {
    let mut book = OrderBook::new();
    book.add_order(Side::Buy, dp(100, 0), dp(1, 0));
    book.add_order(Side::Sell, dp(100, 50), dp(1, 5));
    let bids_before = book.bids.clone();
    let asks_before = book.asks.clone();
    book.remove_order(Side::Buy, dp(98, 0));
    book.remove_order(Side::Sell, dp(98, 0));
    assert_eq!(book.bids, bids_before);
    assert_eq!(book.asks, asks_before);
}

#[test]
fn top_levels_gives_prefix() {
    let mut book = OrderBook::new();
    for i in [100u32, 99, 101, 98] {
        book.add_order(Side::Buy, dp(i, 0), dp(1, 0));
    }
    let top = book.top_levels(Side::Buy, 2);
    assert_eq!(top, vec![(dp(101, 0), dp(1, 0)), (dp(100, 0), dp(1, 0))]);
    let all = book.top_levels(Side::Buy, 10);
    assert_eq!(all.len(), 4);
    assert_eq!(book.top_levels(Side::Sell, 2), vec![]);
}

#[test]
fn quantity_at_finds_level() {
    let mut book = OrderBook::new();
    book.add_order(Side::Buy, dp(100, 0), dp(1, 0));
    book.add_order(Side::Buy, dp(99, 0), dp(2, 0));
    book.add_order(Side::Sell, dp(101, 0), dp(3, 0));
    assert_eq!(book.quantity_at(Side::Buy, dp(99, 0)), Some(dp(2, 0)));
    assert_eq!(book.quantity_at(Side::Buy, dp(101, 0)), None);
    assert_eq!(book.quantity_at(Side::Sell, dp(101, 0)), Some(dp(3, 0)));
    assert_eq!(book.quantity_at(Side::Sell, dp(99, 0)), None);
    book.add_order(Side::Buy, dp(99, 0), dp(7, 5));
    assert_eq!(book.quantity_at(Side::Buy, dp(99, 0)), Some(dp(7, 5)));
}

#[test]
fn render_shows_two_best_of_each_side() {
    let mut book = OrderBook::new();
    book.add_order(Side::Buy, dp(100, 0), dp(1, 0));
    book.add_order(Side::Buy, dp(99, 5), dp(2, 0));
    book.add_order(Side::Buy, dp(98, 0), dp(9, 0));
    book.add_order(Side::Sell, dp(100, 5), dp(1, 5));
    book.add_order(Side::Sell, dp(101, 0), dp(3, 0));
    assert_eq!(
        book.render(),
        "<[99.5:2.0][100.0:1.0]|[100.5: 1.5][101.0: 3.0]>"
    );
}

#[test]
fn render_empty_book() {
    let book = OrderBook::new();
    assert_eq!(book.render(), "<|>");
}

#[test]
fn consistency_check() {
    let mut book = OrderBook::new();
    book.add_order(Side::Buy, dp(100, 0), dp(1, 0));
    book.add_order(Side::Sell, dp(100, 50), dp(1, 5));
    assert!(book.check_consistent());
    book.add_order(Side::Sell, dp(100, 0), dp(2, 0));
    assert!(!book.check_consistent());
    book.remove_order(Side::Sell, dp(100, 0));
    assert!(book.check_consistent());
    book.add_order(Side::Buy, dp(99, 0), dp(0, 0));
    assert!(!book.check_consistent());
}
