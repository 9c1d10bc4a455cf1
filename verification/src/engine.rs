//! The reconciliation engine: turns decoded feed events into book
//! mutations.
//!
//! A snapshot replaces the whole book (clear, then bulk insert), so no stale
//! level survives a resynchronization; an update applies its changes in
//! order, a zero quantity deleting the level and any other overwriting it.
//! The engine also counts applied events and records them in ghost state, so
//! that the lock invariant can promise every reader a book that is the
//! replay of some prefix of the event stream.

use vstd::prelude::*;
use crate::decimal::DecimalPair;
use crate::orderbook::BookView;
use crate::orderbook::OrderBook;
use crate::orderbook::Side;
use crate::orderbook::has_price;
use crate::orderbook::lemma_remove_absent;
use crate::orderbook::lemma_remove_deletes;
use crate::orderbook::lemma_remove_wf;
use crate::orderbook::lemma_upsert_wf;
use crate::spinlock::Protected;

verus! {

/// A decoded feed event.
pub enum FeedEvent {
    /// A full dump of all current levels; replaces the book.
    Snapshot { bids: Vec<(DecimalPair, DecimalPair)>, asks: Vec<(DecimalPair, DecimalPair)> },
    /// A batch of level changes, applied in the order received.
    Update { changes: Vec<(Side, DecimalPair, DecimalPair)> },
}

/// The mathematical content of a feed event.
pub enum EventView {
    Snapshot { bids: Seq<(DecimalPair, DecimalPair)>, asks: Seq<(DecimalPair, DecimalPair)> },
    Update { changes: Seq<(Side, DecimalPair, DecimalPair)> },
}

impl View for FeedEvent {
    type V = EventView;

    open spec fn view(&self) -> EventView {
        match self {
            FeedEvent::Snapshot { bids, asks } => EventView::Snapshot {
                bids: bids@,
                asks: asks@,
            },
            FeedEvent::Update { changes } => EventView::Update { changes: changes@ },
        }
    }
}

/// One level change: a zero quantity deletes the level at the price, any
/// other quantity overwrites it.
pub open spec fn apply_change(v: BookView, c: (Side, DecimalPair, DecimalPair)) -> BookView {
    if c.2 == DecimalPair::zero_spec() {
        v.remove(c.0, c.1)
    } else {
        v.upsert(c.0, c.1, c.2)
    }
}

/// A batch of changes applied first to last, so a later entry for the same
/// price wins.
pub open spec fn apply_changes(v: BookView, cs: Seq<(Side, DecimalPair, DecimalPair)>) -> BookView
    decreases cs.len(),
{
    if cs.len() == 0 {
        v
    } else {
        apply_change(apply_changes(v, cs.drop_last()), cs.last())
    }
}

/// Levels bulk-inserted first to last into one side.
pub open spec fn insert_levels(
    desc: bool,
    s: Seq<(DecimalPair, DecimalPair)>,
    levels: Seq<(DecimalPair, DecimalPair)>,
) -> Seq<(DecimalPair, DecimalPair)>
    decreases levels.len(),
{
    if levels.len() == 0 {
        s
    } else {
        crate::orderbook::upsert_side(
            desc,
            insert_levels(desc, s, levels.drop_last()),
            levels.last().0,
            levels.last().1,
        )
    }
}

/// The book a snapshot produces, whatever the book held before.
pub open spec fn snapshot_view(
    bids: Seq<(DecimalPair, DecimalPair)>,
    asks: Seq<(DecimalPair, DecimalPair)>,
) -> BookView {
    BookView {
        bids: insert_levels(true, Seq::empty(), bids),
        asks: insert_levels(false, Seq::empty(), asks),
    }
}

/// The book after one event.
pub open spec fn apply_event(v: BookView, e: EventView) -> BookView {
    match e {
        EventView::Snapshot { bids, asks } => snapshot_view(bids, asks),
        EventView::Update { changes } => apply_changes(v, changes),
    }
}

/// The book after replaying a whole event sequence from the empty book.
pub open spec fn replay(events: Seq<EventView>) -> BookView
    decreases events.len(),
{
    if events.len() == 0 {
        BookView::empty()
    } else {
        apply_event(replay(events.drop_last()), events.last())
    }
}

/// Applies one decoded event to the book: a snapshot clears both sides and
/// bulk-inserts its levels, an update applies its changes in order.
pub fn apply_event_to(book: &mut OrderBook, event: &FeedEvent)
    requires
        old(book).wf(),
    ensures
        final (book)@ == apply_event(old(book)@, event@),
        final (book).wf(),
{
    match event {
        FeedEvent::Snapshot { bids, asks } => {
            book.bids = Vec::new();
            book.asks = Vec::new();
            proof {
                assert(book@ =~= BookView::empty());
            }
            let mut i: usize = 0;
            while i < bids.len()
                invariant
                    0 <= i <= bids@.len(),
                    book@.bids =~= insert_levels(true, Seq::empty(), bids@.take(i as int)),
                    book@.asks =~= Seq::<(DecimalPair, DecimalPair)>::empty(),
                    book.wf(),
                decreases bids@.len() - i,
            {
                let level = bids[i];
                book.add_order(Side::Buy, level.0, level.1);
                proof {
                    assert(bids@.take(i + 1).drop_last() =~= bids@.take(i as int));
                    assert(bids@.take(i + 1).last() == bids@[i as int]);
                }
                i += 1;
            }
            proof {
                assert(bids@.take(bids@.len() as int) =~= bids@);
            }
            let mut j: usize = 0;
            while j < asks.len()
                invariant
                    0 <= j <= asks@.len(),
                    book@.bids =~= insert_levels(true, Seq::empty(), bids@),
                    book@.asks =~= insert_levels(false, Seq::empty(), asks@.take(j as int)),
                    book.wf(),
                decreases asks@.len() - j,
            {
                let level = asks[j];
                book.add_order(Side::Sell, level.0, level.1);
                proof {
                    assert(asks@.take(j + 1).drop_last() =~= asks@.take(j as int));
                    assert(asks@.take(j + 1).last() == asks@[j as int]);
                }
                j += 1;
            }
            proof {
                assert(asks@.take(asks@.len() as int) =~= asks@);
                assert(book@ =~= snapshot_view(bids@, asks@));
            }
        },
        FeedEvent::Update { changes } => {
            let ghost v0 = book@;
            let mut i: usize = 0;
            while i < changes.len()
                invariant
                    0 <= i <= changes@.len(),
                    book@ =~= apply_changes(v0, changes@.take(i as int)),
                    book.wf(),
                decreases changes@.len() - i,
            {
                let c = changes[i];
                if c.2.is_zero() {
                    book.remove_order(c.0, c.1);
                } else {
                    book.add_order(c.0, c.1, c.2);
                }
                proof {
                    assert(changes@.take(i + 1).drop_last() =~= changes@.take(i as int));
                    assert(changes@.take(i + 1).last() == changes@[i as int]);
                }
                i += 1;
            }
            proof {
                assert(changes@.take(changes@.len() as int) =~= changes@);
            }
        },
    }
}

/// Law: any event applied to a well-formed book leaves it well formed.
pub proof fn lemma_apply_event_wf(v: BookView, e: EventView)
    requires
        v.wf(),
    ensures
        apply_event(v, e).wf(),
{
    match e {
        EventView::Snapshot { bids, asks } => {
            lemma_insert_levels_sorted(true, Seq::empty(), bids);
            lemma_insert_levels_sorted(false, Seq::empty(), asks);
        },
        EventView::Update { changes } => {
            lemma_apply_changes_wf(v, changes);
        },
    }
}

/// Bulk insertion keeps a side strictly ordered.
proof fn lemma_insert_levels_sorted(
    desc: bool,
    s: Seq<(DecimalPair, DecimalPair)>,
    levels: Seq<(DecimalPair, DecimalPair)>,
)
    requires
        crate::orderbook::sorted_side(desc, s),
    ensures
        crate::orderbook::sorted_side(desc, insert_levels(desc, s, levels)),
    decreases levels.len(),
{
    if levels.len() > 0 {
        lemma_insert_levels_sorted(desc, s, levels.drop_last());
        crate::orderbook::lemma_upsert_side_sorted(
            desc,
            insert_levels(desc, s, levels.drop_last()),
            levels.last().0,
            levels.last().1,
        );
    }
}

/// A batch of changes keeps the book well formed.
proof fn lemma_apply_changes_wf(v: BookView, cs: Seq<(Side, DecimalPair, DecimalPair)>)
    requires
        v.wf(),
    ensures
        apply_changes(v, cs).wf(),
    decreases cs.len(),
{
    if cs.len() > 0 {
        lemma_apply_changes_wf(v, cs.drop_last());
        let w = apply_changes(v, cs.drop_last());
        if cs.last().2 == DecimalPair::zero_spec() {
            lemma_remove_wf(w, cs.last().0, cs.last().1);
        } else {
            lemma_upsert_wf(w, cs.last().0, cs.last().1, cs.last().2);
        }
    }
}

/// Law: a change with the zero quantity deletes the level at its price; at
/// an absent price it changes nothing.
pub proof fn lemma_zero_change_removes(v: BookView, side: Side, p: DecimalPair)
    requires
        v.wf(),
    ensures
        apply_change(v, (side, p, DecimalPair::zero_spec())) == v.remove(side, p),
        !has_price(apply_change(v, (side, p, DecimalPair::zero_spec())).side(side), p),
        !has_price(v.side(side), p) ==> apply_change(v, (side, p, DecimalPair::zero_spec())) == v,
{
    lemma_remove_deletes(v, side, p);
    if !has_price(v.side(side), p) {
        lemma_remove_absent(v, side, p);
    }
}

/// Law: a snapshot replaces the book. The result is the snapshot's levels
/// alone, whatever the book held before: no residue survives.
pub proof fn lemma_snapshot_replaces(
    v1: BookView,
    v2: BookView,
    bids: Seq<(DecimalPair, DecimalPair)>,
    asks: Seq<(DecimalPair, DecimalPair)>,
)
    ensures
        apply_event(v1, (EventView::Snapshot { bids, asks })) == apply_event(
            v2,
            (EventView::Snapshot { bids, asks }),
        ),
        apply_event(v1, (EventView::Snapshot { bids, asks })) == snapshot_view(bids, asks),
{
}

/// The quantity of the last level at `p` in a snapshot batch, if the batch
/// names `p` at all.
pub open spec fn last_quantity(levels: Seq<(DecimalPair, DecimalPair)>, p: DecimalPair) -> Option<
    DecimalPair,
>
    decreases levels.len(),
{
    if levels.len() == 0 {
        Option::None
    } else if levels.last().0 == p {
        Option::Some(levels.last().1)
    } else {
        last_quantity(levels.drop_last(), p)
    }
}

/// A bulk insert leaves at `p` the batch's last quantity for `p`, and what
/// the side already held where the batch never names `p`.
proof fn lemma_insert_levels_contents(
    desc: bool,
    s: Seq<(DecimalPair, DecimalPair)>,
    levels: Seq<(DecimalPair, DecimalPair)>,
    p: DecimalPair,
)
    ensures
        crate::orderbook::value_at(insert_levels(desc, s, levels), p) == (match last_quantity(
            levels,
            p,
        ) {
            Option::Some(q) => Option::Some(q),
            Option::None => crate::orderbook::value_at(s, p),
        }),
    decreases levels.len(),
{
    if levels.len() > 0 {
        let rest = insert_levels(desc, s, levels.drop_last());
        lemma_insert_levels_contents(desc, s, levels.drop_last(), p);
        crate::orderbook::lemma_upsert_contents(desc, rest, levels.last().0, levels.last().1);
    }
}

/// Law: a snapshot leaves at every price exactly what its own last entry
/// for that price says, and nothing anywhere else: the book holds the
/// snapshot's levels alone.
pub proof fn lemma_snapshot_contents(
    bids: Seq<(DecimalPair, DecimalPair)>,
    asks: Seq<(DecimalPair, DecimalPair)>,
    p: DecimalPair,
)
    ensures
        crate::orderbook::value_at(snapshot_view(bids, asks).bids, p) == last_quantity(bids, p),
        crate::orderbook::value_at(snapshot_view(bids, asks).asks, p) == last_quantity(asks, p),
{
    lemma_insert_levels_contents(true, Seq::empty(), bids, p);
    lemma_insert_levels_contents(false, Seq::empty(), asks, p);
}

/// The quantity of the last change in a batch that names `(side, p)`, if
/// any does.
pub open spec fn last_change(
    cs: Seq<(Side, DecimalPair, DecimalPair)>,
    side: Side,
    p: DecimalPair,
) -> Option<DecimalPair>
    decreases cs.len(),
{
    if cs.len() == 0 {
        Option::None
    } else if cs.last().0 == side && cs.last().1 == p {
        Option::Some(cs.last().2)
    } else {
        last_change(cs.drop_last(), side, p)
    }
}

/// Law: in a change batch the last entry for a price wins. After the batch,
/// the quantity at a price is the last change's quantity (or nothing, when
/// that change was the zero sentinel); a price the batch never names keeps
/// what it had.
pub proof fn lemma_apply_changes_contents(
    v: BookView,
    cs: Seq<(Side, DecimalPair, DecimalPair)>,
    side: Side,
    p: DecimalPair,
)
    requires
        v.wf(),
    ensures
        crate::orderbook::value_at(apply_changes(v, cs).side(side), p) == (match last_change(
            cs,
            side,
            p,
        ) {
            Option::Some(q) => (if q == DecimalPair::zero_spec() {
                Option::<DecimalPair>::None
            } else {
                Option::Some(q)
            }),
            Option::None => crate::orderbook::value_at(v.side(side), p),
        }),
    decreases cs.len(),
{
    if cs.len() > 0 {
        let w = apply_changes(v, cs.drop_last());
        let c = cs.last();
        lemma_apply_changes_contents(v, cs.drop_last(), side, p);
        lemma_apply_changes_wf(v, cs.drop_last());
        let desc = (side == Side::Buy);
        if c.0 == side {
            if c.2 == DecimalPair::zero_spec() {
                crate::orderbook::lemma_remove_contents(desc, w.side(side), c.1);
            } else {
                crate::orderbook::lemma_upsert_contents(desc, w.side(side), c.1, c.2);
            }
        }
    }
}

/// Law: every replayed book is well formed.
pub proof fn lemma_replay_wf(events: Seq<EventView>)
    ensures
        replay(events).wf(),
    decreases events.len(),
{
    if events.len() > 0 {
        lemma_replay_wf(events.drop_last());
        lemma_apply_event_wf(replay(events.drop_last()), events.last());
    }
}

/// The reconciliation state one ingestion session maintains: the book, the
/// count of events applied to it, and (in ghost state) the events
/// themselves.
pub struct Engine {
    pub book: OrderBook,
    pub applied: u64,
    pub history: Ghost<Seq<EventView>>,
}

impl Engine {
    /// The book is the replay of the recorded event history, well formed,
    /// and `applied` counts the history (saturating at `u64::MAX`).
    pub open spec fn inv(&self) -> bool {
        &&& self.book@ == replay(self.history@)
        &&& self.book.wf()
        &&& self.applied as int == (if self.history@.len() <= u64::MAX as int {
            self.history@.len() as int
        } else {
            u64::MAX as int
        })
    }

    /// A fresh engine: empty book, nothing applied.
    pub fn new() -> (r: Engine)
        ensures
            r.inv(),
            r.history@ == Seq::<EventView>::empty(),
            r.book@ == BookView::empty(),
            r.applied == 0,
    {
        let r = Engine { book: OrderBook::new(), applied: 0, history: Ghost(Seq::empty()) };
        r
    }

    /// Applies one event atomically to the engine's book and records it.
    pub fn apply(&mut self, event: &FeedEvent)
        requires
            old(self).inv(),
        ensures
            final (self).inv(),
            final (self).history@ == old(self).history@.push(event@),
            final (self).book@ == apply_event(old(self).book@, event@),
            final (self).applied >= old(self).applied,
    {
        let ghost h = self.history@;
        apply_event_to(&mut self.book, event);
        if self.applied < u64::MAX {
            self.applied = self.applied + 1;
        }
        self.history = Ghost(h.push(event@));
        proof {
            assert(h.push(event@).drop_last() =~= h);
            assert(h.push(event@).last() == event@);
        }
    }
}

/// Law: any engine state that satisfies the lock's invariant — so any state
/// a reader receives from `SpinLock::lock` — shows a well-formed book that
/// is exactly the replay of the recorded event prefix, and a count that
/// matches that prefix. A reader can never observe a half-applied event or
/// a count out of step with the book.
pub proof fn lemma_reader_sees_prefix(e: Engine)
    requires
        e.inv(),
    ensures
        e.book@ == replay(e.history@),
        e.book.wf(),
        e.history@.len() <= u64::MAX as int ==> e.applied as int == e.history@.len(),
{
}

impl Protected for Engine {
    /// What the lock maintains of a shared engine: every observer sees a
    /// well-formed book that is the replay of the recorded event prefix,
    /// with a count that matches it.
    open spec fn lock_inv(&self) -> bool {
        self.inv()
    }
}

impl Protected for OrderBook {
    /// What the lock maintains of a shared bare book: both sides ordered.
    open spec fn lock_inv(&self) -> bool {
        self.wf()
    }
}

} // verus!
