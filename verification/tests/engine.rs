use orderbook::engine::apply_event_to;
use orderbook::engine::Engine;
use orderbook::engine::FeedEvent;
use orderbook::feed::parse_side;
use orderbook::feed::subscribe_message;
use orderbook::DecimalPair;
use orderbook::OrderBook;
use orderbook::Side;

fn dp(int: u32, frac: u32) -> DecimalPair {
    DecimalPair { int, frac }
}

#[test]
fn snapshot_populates_empty_book() {
    let mut book = OrderBook::new();
    let event = FeedEvent::Snapshot {
        bids: vec![(dp(100, 0), dp(1, 0)), (dp(99, 50), dp(2, 0))],
        asks: vec![(dp(100, 50), dp(1, 50))],
    };
    apply_event_to(&mut book, &event);
    assert_eq!(book.best_bid(), Some((dp(100, 0), dp(1, 0))));
    assert_eq!(book.best_ask(), Some((dp(100, 50), dp(1, 50))));
}

#[test]
fn snapshot_replaces_previous_book() {
    let mut book = OrderBook::new();
    let first = FeedEvent::Snapshot {
        bids: vec![(dp(90, 0), dp(1, 0)), (dp(89, 0), dp(2, 0))],
        asks: vec![(dp(91, 0), dp(3, 0))],
    };
    apply_event_to(&mut book, &first);
    let second = FeedEvent::Snapshot {
        bids: vec![(dp(100, 0), dp(1, 0))],
        asks: vec![(dp(100, 50), dp(1, 50)), (dp(101, 0), dp(2, 0))],
    };
    apply_event_to(&mut book, &second);
    assert_eq!(book.bids, vec![(dp(100, 0), dp(1, 0))]);
    assert_eq!(
        book.asks,
        vec![(dp(100, 50), dp(1, 50)), (dp(101, 0), dp(2, 0))]
    );
}

#[test]
fn zero_quantity_update_removes() {
    let mut book = OrderBook::new();
    book.add_order(Side::Buy, dp(100, 0), dp(1, 0));
    book.add_order(Side::Buy, dp(99, 0), dp(2, 0));
    let zero_existing = FeedEvent::Update {
        changes: vec![(Side::Buy, dp(100, 0), dp(0, 0))],
    };
    apply_event_to(&mut book, &zero_existing);
    assert_eq!(book.bids, vec![(dp(99, 0), dp(2, 0))]);

    let zero_absent = FeedEvent::Update {
        changes: vec![(Side::Buy, dp(50, 0), dp(0, 0))],
    };
    apply_event_to(&mut book, &zero_absent);
    assert_eq!(book.bids, vec![(dp(99, 0), dp(2, 0))]);
}

#[test]
fn update_applies_changes_in_order() {
    let mut book = OrderBook::new();
    let event = FeedEvent::Update {
        changes: vec![
            (Side::Sell, dp(100, 0), dp(1, 0)),
            (Side::Sell, dp(100, 0), dp(2, 0)),
            (Side::Buy, dp(99, 0), dp(5, 0)),
            (Side::Buy, dp(99, 0), dp(0, 0)),
        ],
    };
    apply_event_to(&mut book, &event);
    // Later entries for the same price win.
    assert_eq!(book.asks, vec![(dp(100, 0), dp(2, 0))]);
    assert!(book.bids.is_empty());
}

#[test]
fn example_scenario() {
    let mut engine = Engine::new();
    let snapshot = FeedEvent::Snapshot {
        bids: vec![(dp(100, 0), dp(1, 0)), (dp(99, 50), dp(2, 0))],
        asks: vec![(dp(100, 50), dp(1, 50))],
    };
    engine.apply(&snapshot);
    assert_eq!(engine.book.best_bid(), Some((dp(100, 0), dp(1, 0))));
    assert_eq!(engine.book.best_ask(), Some((dp(100, 50), dp(1, 50))));

    let update = FeedEvent::Update {
        changes: vec![
            (Side::Buy, dp(100, 0), dp(0, 0)),
            (Side::Sell, dp(101, 0), dp(3, 0)),
        ],
    };
    engine.apply(&update);
    assert_eq!(engine.book.best_bid(), Some((dp(99, 50), dp(2, 0))));
    assert_eq!(
        engine.book.asks,
        vec![(dp(100, 50), dp(1, 50)), (dp(101, 0), dp(3, 0))]
    );
    assert_eq!(engine.applied, 2);
}

#[test]
fn engine_counts_events() {
    let mut engine = Engine::new();
    assert_eq!(engine.applied, 0);
    for i in 1..=5u32 {
        let event = FeedEvent::Update {
            changes: vec![(Side::Buy, dp(i, 0), dp(1, 0))],
        };
        engine.apply(&event);
        assert_eq!(engine.applied, i as u64);
    }
    assert_eq!(engine.book.bids.len(), 5);
}

#[test]
fn side_tokens() {
    assert_eq!(parse_side("buy"), Some(Side::Buy));
    assert_eq!(parse_side("BUY"), Some(Side::Buy));
    assert_eq!(parse_side("Buy"), Some(Side::Buy));
    assert_eq!(parse_side("sell"), Some(Side::Sell));
    assert_eq!(parse_side("SELL"), Some(Side::Sell));
    assert_eq!(parse_side("Sell"), Some(Side::Sell));
    assert_eq!(parse_side("hold"), None);
    assert_eq!(parse_side("buys"), None);
    assert_eq!(parse_side(""), None);
}

#[test]
fn subscription_text() {
    assert_eq!(
        subscribe_message("level2_batch", "BTC-USD"),
        "{\"channels\":[\"level2_batch\"],\"product_ids\":[\"BTC-USD\"],\"type\":\"subscribe\"}"
    );
}
