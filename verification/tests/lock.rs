use orderbook::engine::Engine;
use orderbook::engine::FeedEvent;
use orderbook::DecimalPair;
use orderbook::OrderBook;
use orderbook::Side;
use orderbook::SpinLock;

fn dp(int: u32, frac: u32) -> DecimalPair {
    DecimalPair { int, frac }
}

#[test]
fn lock_round_trip() {
    let lock = SpinLock::new(OrderBook::new());
    let (mut book, guard) = lock.lock();
    book.add_order(Side::Buy, dp(100, 0), dp(1, 0));
    guard.unlock(book);
    let (book, guard) = lock.lock();
    assert_eq!(book.best_bid(), Some((dp(100, 0), dp(1, 0))));
    guard.unlock(book);
}

#[test]
fn readers_see_whole_events_only() {
    // A writer applies events one at a time under the lock; between any two
    // of them a reader that takes the lock sees a book that is exactly the
    // replay of the counted prefix, never a half-applied event.
    let lock = SpinLock::new(Engine::new());
    let events = [
        FeedEvent::Snapshot {
            bids: vec![(dp(100, 0), dp(1, 0)), (dp(99, 50), dp(2, 0))],
            asks: vec![(dp(100, 50), dp(1, 50))],
        },
        FeedEvent::Update {
            changes: vec![
                (Side::Buy, dp(100, 0), dp(0, 0)),
                (Side::Sell, dp(101, 0), dp(3, 0)),
            ],
        },
        FeedEvent::Update {
            changes: vec![(Side::Sell, dp(100, 50), dp(0, 0))],
        },
    ];

    // The expected book after each prefix of the event stream.
    let mut expected: Vec<OrderBook> = Vec::new();
    let mut model = Engine::new();
    for event in &events {
        model.apply(event);
        expected.push(OrderBook {
            bids: model.book.bids.clone(),
            asks: model.book.asks.clone(),
        });
    }

    for (i, event) in events.iter().enumerate() {
        let (mut engine, guard) = lock.lock();
        engine.apply(event);
        guard.unlock(engine);

        let (engine, guard) = lock.lock();
        let count = engine.applied as usize;
        assert_eq!(count, i + 1);
        assert_eq!(engine.book.bids, expected[count - 1].bids);
        assert_eq!(engine.book.asks, expected[count - 1].asks);
        assert!(engine.book.check_consistent());
        guard.unlock(engine);
    }
}
