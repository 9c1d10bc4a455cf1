//! A verified limit order book.
//!
//! The crate keeps two ordered price-to-quantity collections (bids descending,
//! asks ascending), reconciles a feed of snapshot and incremental update
//! events into them, and guards the shared state with a spin-waiting
//! mutual-exclusion lock so that concurrent readers always observe a book
//! that is the result of replaying some prefix of the event stream.

pub mod decimal;
pub mod engine;
pub mod feed;
pub mod orderbook;
pub mod spinlock;

pub use decimal::DecimalPair;
pub use orderbook::OrderBook;
pub use orderbook::Side;
pub use spinlock::Guard;
pub use spinlock::SpinLock;
