//! The ordered order book: two price-to-quantity collections, bids ordered
//! by descending price and asks by ascending price, so the best price of a
//! side is always its first level.

use vstd::prelude::*;
use crate::decimal::DecimalPair;

verus! {

/// Which side of the book an operation addresses.
#[derive(Debug, Clone, Copy, PartialEq, Eq, Structural)]
pub enum Side {
    Buy,
    Sell,
}

/// Whether price `a` rests before price `b` on a side: descending order for
/// bids (`desc`), ascending for asks.
pub open spec fn price_before(desc: bool, a: DecimalPair, b: DecimalPair) -> bool {
    if desc {
        b.lt_spec(a)
    } else {
        a.lt_spec(b)
    }
}

/// Whether the levels of `s` are strictly ordered for a side, best price
/// first.
pub open spec fn sorted_side(desc: bool, s: Seq<(DecimalPair, DecimalPair)>) -> bool {
    forall|i: int, j: int|
        0 <= i < j < s.len() ==> price_before(desc, #[trigger] s[i].0, #[trigger] s[j].0)
}

/// Whether some level of `s` rests at price `p`.
pub open spec fn has_price(s: Seq<(DecimalPair, DecimalPair)>, p: DecimalPair) -> bool {
    exists|i: int| 0 <= i < s.len() && #[trigger] s[i].0 == p
}

/// The levels of `s` with the quantity at `p` set to `q`: an existing level
/// is overwritten in place, a new one enters where the side's order puts it.
pub open spec fn upsert_side(
    desc: bool,
    s: Seq<(DecimalPair, DecimalPair)>,
    p: DecimalPair,
    q: DecimalPair,
) -> Seq<(DecimalPair, DecimalPair)>
    decreases s.len(),
{
    if s.len() == 0 {
        seq![(p, q)]
    } else if p == s[0].0 {
        seq![(p, q)] + s.drop_first()
    } else if price_before(desc, p, s[0].0) {
        seq![(p, q)] + s
    } else {
        seq![s[0]] + upsert_side(desc, s.drop_first(), p, q)
    }
}

/// The levels of `s` without the one at `p`; `s` itself when no level rests
/// at `p`.
pub open spec fn remove_price(s: Seq<(DecimalPair, DecimalPair)>, p: DecimalPair) -> Seq<
    (DecimalPair, DecimalPair),
>
    decreases s.len(),
{
    if s.len() == 0 {
        s
    } else if s[0].0 == p {
        s.drop_first()
    } else {
        seq![s[0]] + remove_price(s.drop_first(), p)
    }
}

/// The mathematical content of an order book: the two level sequences.
#[verifier::ext_equal]
pub struct BookView {
    pub bids: Seq<(DecimalPair, DecimalPair)>,
    pub asks: Seq<(DecimalPair, DecimalPair)>,
}

impl BookView {
    /// The empty book.
    pub open spec fn empty() -> BookView {
        BookView { bids: Seq::empty(), asks: Seq::empty() }
    }

    /// The level sequence of one side.
    pub open spec fn side(self, side: Side) -> Seq<(DecimalPair, DecimalPair)> {
        match side {
            Side::Buy => self.bids,
            Side::Sell => self.asks,
        }
    }

    /// Both sides strictly ordered, best price first.
    pub open spec fn wf(self) -> bool {
        sorted_side(true, self.bids) && sorted_side(false, self.asks)
    }

    /// The book after an upsert on one side.
    pub open spec fn upsert(self, side: Side, p: DecimalPair, q: DecimalPair) -> BookView {
        match side {
            Side::Buy => BookView { bids: upsert_side(true, self.bids, p, q), asks: self.asks },
            Side::Sell => BookView { bids: self.bids, asks: upsert_side(false, self.asks, p, q) },
        }
    }

    /// The book after a removal on one side.
    pub open spec fn remove(self, side: Side, p: DecimalPair) -> BookView {
        match side {
            Side::Buy => BookView { bids: remove_price(self.bids, p), asks: self.asks },
            Side::Sell => BookView { bids: self.bids, asks: remove_price(self.asks, p) },
        }
    }
}

/// The order book: bids best (highest) price first, asks best (lowest) price
/// first.
#[derive(Debug, Clone)]
pub struct OrderBook {
    pub bids: Vec<(DecimalPair, DecimalPair)>,
    pub asks: Vec<(DecimalPair, DecimalPair)>,
}

impl View for OrderBook {
    type V = BookView;

    open spec fn view(&self) -> BookView {
        BookView { bids: self.bids@, asks: self.asks@ }
    }
}

impl OrderBook {
    /// Both sides strictly ordered, best price first.
    pub open spec fn wf(&self) -> bool {
        self@.wf()
    }

    /// Creates an empty book.
    pub fn new() -> (r: OrderBook)
        ensures
            r@ == BookView::empty(),
            r.wf(),
    {
        let r = OrderBook { bids: Vec::new(), asks: Vec::new() };
        proof {
            assert(r@ =~= BookView::empty());
        }
        r
    }

    /// Inserts or overwrites the quantity resting at `key` on the chosen
    /// side; the other side is untouched.
    pub fn add_order(&mut self, side: Side, key: DecimalPair, val: DecimalPair)
        requires
            old(self).wf(),
        ensures
            final (self)@ == old(self)@.upsert(side, key, val),
            final (self).wf(),
    {
        match side {
            Side::Buy => upsert_vec(&mut self.bids, true, key, val),
            Side::Sell => upsert_vec(&mut self.asks, false, key, val),
        }
        proof {
            assert(final (self)@ =~= old(self)@.upsert(side, key, val));
        }
    }

    /// Deletes the level at `key` on the chosen side; a silent no-op when no
    /// level rests there.
    pub fn remove_order(&mut self, side: Side, key: DecimalPair)
        requires
            old(self).wf(),
        ensures
            final (self)@ == old(self)@.remove(side, key),
            final (self).wf(),
    {
        match side {
            Side::Buy => remove_vec(&mut self.bids, true, key),
            Side::Sell => remove_vec(&mut self.asks, false, key),
        }
        proof {
            assert(final (self)@ =~= old(self)@.remove(side, key));
        }
    }

    /// The best (highest) bid, with its quantity.
    pub fn best_bid(&self) -> (r: Option<(DecimalPair, DecimalPair)>)
        ensures
            r == (if self@.bids.len() == 0 {
                Option::<(DecimalPair, DecimalPair)>::None
            } else {
                Option::Some(self@.bids[0])
            }),
    {
        if self.bids.len() == 0 {
            None
        } else {
            Some(self.bids[0])
        }
    }

    /// The best (lowest) ask, with its quantity.
    pub fn best_ask(&self) -> (r: Option<(DecimalPair, DecimalPair)>)
        ensures
            r == (if self@.asks.len() == 0 {
                Option::<(DecimalPair, DecimalPair)>::None
            } else {
                Option::Some(self@.asks[0])
            }),
    {
        if self.asks.len() == 0 {
            None
        } else {
            Some(self.asks[0])
        }
    }

    /// The first `n` levels of one side, best price first: the depth query a
    /// consumer builds a display on.
    pub fn top_levels(&self, side: Side, n: usize) -> (r: Vec<(DecimalPair, DecimalPair)>)
        ensures
            r@ == self@.side(side).take(
                if n as int <= self@.side(side).len() {
                    n as int
                } else {
                    self@.side(side).len() as int
                },
            ),
    {
        let src: &Vec<(DecimalPair, DecimalPair)> = match side {
            Side::Buy => &self.bids,
            Side::Sell => &self.asks,
        };
        let m: usize = if n <= src.len() {
            n
        } else {
            src.len()
        };
        let mut r: Vec<(DecimalPair, DecimalPair)> = Vec::new();
        let mut i: usize = 0;
        while i < m
            invariant
                0 <= i <= m <= src@.len(),
                src@ == self@.side(side),
                r@ =~= src@.take(i as int),
            decreases m - i,
        {
            r.push(src[i]);
            i += 1;
            proof {
                assert(r@ =~= src@.take(i as int));
            }
        }
        proof {
            assert(r@ =~= self@.side(side).take(m as int));
        }
        r
    }
}

/// Characterizes `upsert_side` at the splice point the scan below finds.
proof fn lemma_upsert_splice(
    desc: bool,
    s: Seq<(DecimalPair, DecimalPair)>,
    p: DecimalPair,
    q: DecimalPair,
    i: int,
)
    requires
        0 <= i <= s.len(),
        forall|j: int| 0 <= j < i ==> price_before(desc, #[trigger] s[j].0, p),
        i < s.len() ==> !price_before(desc, s[i].0, p),
    ensures
        i < s.len() && s[i].0 == p ==> upsert_side(desc, s, p, q) =~= s.update(i, (p, q)),
        !(i < s.len() && s[i].0 == p) ==> upsert_side(desc, s, p, q) =~= s.insert(i, (p, q)),
    decreases i,
{
    if i == 0 {
        if s.len() == 0 {
            assert(upsert_side(desc, s, p, q) =~= s.insert(0, (p, q)));
        } else if s[0].0 == p {
            assert(upsert_side(desc, s, p, q) == seq![(p, q)] + s.drop_first());
            assert(seq![(p, q)] + s.drop_first() =~= s.update(0, (p, q)));
        } else {
            assert(price_before(desc, p, s[0].0));
            assert(upsert_side(desc, s, p, q) =~= s.insert(0, (p, q)));
        }
    } else {
        assert(price_before(desc, s[0].0, p));
        assert(s[0].0 != p);
        assert(!price_before(desc, p, s[0].0));
        let t = s.drop_first();
        assert(forall|j: int| 0 <= j < i - 1 ==> price_before(desc, #[trigger] t[j].0, p));
        lemma_upsert_splice(desc, t, p, q, i - 1);
        assert(upsert_side(desc, s, p, q) == seq![s[0]] + upsert_side(desc, t, p, q));
        if i < s.len() && s[i].0 == p {
            assert(seq![s[0]] + t.update(i - 1, (p, q)) =~= s.update(i, (p, q)));
        } else {
            assert(seq![s[0]] + t.insert(i - 1, (p, q)) =~= s.insert(i, (p, q)));
        }
    }
}

/// Characterizes `remove_price` when the scan below finds `p` at `i`, or
/// nowhere.
proof fn lemma_remove_splice(desc: bool, s: Seq<(DecimalPair, DecimalPair)>, p: DecimalPair, i: int)
    requires
        0 <= i <= s.len(),
        forall|j: int| 0 <= j < i ==> (#[trigger] s[j].0) != p,
    ensures
        i < s.len() && s[i].0 == p ==> remove_price(s, p) =~= s.remove(i),
        i == s.len() ==> remove_price(s, p) =~= s,
    decreases i,
{
    if i == 0 {
        if s.len() > 0 && s[0].0 == p {
            assert(remove_price(s, p) =~= s.remove(0));
        }
    } else {
        let t = s.drop_first();
        assert(forall|j: int| 0 <= j < i - 1 ==> (#[trigger] t[j].0) != p);
        lemma_remove_splice(desc, t, p, i - 1);
        assert(s[0].0 != p);
        assert(remove_price(s, p) == seq![s[0]] + remove_price(t, p));
        if i < s.len() && s[i].0 == p {
            assert(seq![s[0]] + t.remove(i - 1) =~= s.remove(i));
        } else if i == s.len() {
            assert(seq![s[0]] + t =~= s);
        }
    }
}

/// Inserts or overwrites `(key, val)` in a strictly ordered level vector.
fn upsert_vec(v: &mut Vec<(DecimalPair, DecimalPair)>, desc: bool, key: DecimalPair, val: DecimalPair)
    requires
        sorted_side(desc, old(v)@),
    ensures
        final (v)@ == upsert_side(desc, old(v)@, key, val),
        sorted_side(desc, final (v)@),
{
    let ghost s = v@;
    let n: usize = v.len();
    let mut i: usize = 0;
    while i < n && price_before_exec(desc, &v[i].0, &key)
        invariant
            0 <= i <= n == v@.len(),
            v@ == s,
            forall|j: int| 0 <= j < i ==> price_before(desc, #[trigger] s[j].0, key),
        decreases n - i,
    {
        i += 1;
    }
    proof {
        lemma_upsert_splice(desc, s, key, val, i as int);
    }
    if i < n && v[i].0 == key {
        v.remove(i);
        v.insert(i, (key, val));
        proof {
            assert(final (v)@ =~= s.update(i as int, (key, val)));
            assert(sorted_side(desc, final (v)@)) by {
                assert(forall|a: int|
                    0 <= a < s.len() && a != i ==> (#[trigger] s.update(i as int, (key, val))[a])
                        == s[a]);
            }
        }
    } else {
        v.insert(i, (key, val));
        proof {
            let u = s.insert(i as int, (key, val));
            assert(final (v)@ == u);
            assert(i < s.len() ==> !price_before(desc, s[i as int].0, key) && s[i as int].0 != key);
            assert(i < s.len() ==> price_before(desc, key, s[i as int].0));
            assert(sorted_side(desc, u)) by {
                assert(forall|a: int| 0 <= a < i ==> #[trigger] u[a] == s[a]);
                assert(u[i as int] == (key, val));
                assert(forall|a: int| i < a < u.len() ==> #[trigger] u[a] == s[a - 1]);
                assert(forall|a: int, b: int|
                    0 <= a < b < u.len() ==> price_before(desc, #[trigger] u[a].0, #[trigger] u[b].0))
                    by {
                    assert forall|a: int, b: int| 0 <= a < b < u.len() implies price_before(
                        desc,
                        #[trigger] u[a].0,
                        #[trigger] u[b].0,
                    ) by {
                        if a == i {
                            assert(u[b] == s[b - 1]);
                            assert(!price_before(desc, s[b - 1].0, key));
                        } else if b == i {
                            assert(u[a] == s[a]);
                        } else if a < i && b > i {
                            assert(price_before(desc, s[a].0, s[b - 1].0) || a == b - 1);
                        }
                    }
                }
            }
        }
    }
}

/// Deletes the level at `key` from a strictly ordered level vector, if any.
fn remove_vec(v: &mut Vec<(DecimalPair, DecimalPair)>, desc: bool, key: DecimalPair)
    requires
        sorted_side(desc, old(v)@),
    ensures
        final (v)@ == remove_price(old(v)@, key),
        sorted_side(desc, final (v)@),
{
    let ghost s = v@;
    let n: usize = v.len();
    let mut i: usize = 0;
    while i < n && v[i].0 != key
        invariant
            0 <= i <= n == v@.len(),
            v@ == s,
            forall|j: int| 0 <= j < i ==> (#[trigger] s[j].0) != key,
        decreases n - i,
    {
        i += 1;
    }
    proof {
        lemma_remove_splice(desc, s, key, i as int);
    }
    if i < n {
        v.remove(i);
        proof {
            let u = s.remove(i as int);
            assert(v@ == u);
            assert(remove_price(s, key) =~= u);
            assert forall|a: int, b: int| 0 <= a < b < u.len() implies price_before(
                desc,
                #[trigger] u[a].0,
                #[trigger] u[b].0,
            ) by {
                let a2 = if a < i as int {
                    a
                } else {
                    a + 1
                };
                let b2 = if b < i as int {
                    b
                } else {
                    b + 1
                };
                assert(u[a] == s[a2]);
                assert(u[b] == s[b2]);
                assert(price_before(desc, s[a2].0, s[b2].0));
            }
        }
    }
}

/// Upserting leaves a side strictly ordered, and brings in no price beyond
/// the upserted one.
pub proof fn lemma_upsert_side_sorted(
    desc: bool,
    s: Seq<(DecimalPair, DecimalPair)>,
    p: DecimalPair,
    q: DecimalPair,
)
    requires
        sorted_side(desc, s),
    ensures
        sorted_side(desc, upsert_side(desc, s, p, q)),
        forall|a: int|
            0 <= a < upsert_side(desc, s, p, q).len() ==> (#[trigger] upsert_side(
                desc,
                s,
                p,
                q,
            )[a].0) == p || has_price(s, upsert_side(desc, s, p, q)[a].0),
    decreases s.len(),
{
    let r = upsert_side(desc, s, p, q);
    if s.len() == 0 {
        assert(r == seq![(p, q)]);
        assert(r[0].0 == p);
    } else if p == s[0].0 {
        let t = s.drop_first();
        assert(r == seq![(p, q)] + t);
        assert forall|a: int| 0 <= a < r.len() implies (#[trigger] r[a].0) == p || has_price(
            s,
            r[a].0,
        ) by {
            if a > 0 {
                assert(r[a] == s[a]);
                assert(s[a].0 == s[a].0);
            }
        }
        assert forall|a: int, b: int| 0 <= a < b < r.len() implies price_before(
            desc,
            #[trigger] r[a].0,
            #[trigger] r[b].0,
        ) by {
            if a == 0 {
                assert(r[b] == s[b]);
                assert(price_before(desc, s[0].0, s[b].0));
            } else {
                assert(r[a] == s[a] && r[b] == s[b]);
            }
        }
    } else if price_before(desc, p, s[0].0) {
        assert(r == seq![(p, q)] + s);
        assert forall|a: int| 0 <= a < r.len() implies (#[trigger] r[a].0) == p || has_price(
            s,
            r[a].0,
        ) by {
            if a > 0 {
                assert(r[a] == s[a - 1]);
                assert(s[a - 1].0 == s[a - 1].0);
            }
        }
        assert forall|a: int, b: int| 0 <= a < b < r.len() implies price_before(
            desc,
            #[trigger] r[a].0,
            #[trigger] r[b].0,
        ) by {
            if a == 0 {
                assert(r[b] == s[b - 1]);
                if b > 1 {
                    assert(price_before(desc, s[0].0, s[b - 1].0));
                }
            } else {
                assert(r[a] == s[a - 1] && r[b] == s[b - 1]);
            }
        }
    } else {
        let t = s.drop_first();
        assert(forall|i: int, j: int|
            0 <= i < j < t.len() ==> price_before(desc, #[trigger] t[i].0, #[trigger] t[j].0));
        lemma_upsert_side_sorted(desc, t, p, q);
        let rt = upsert_side(desc, t, p, q);
        assert(r == seq![s[0]] + rt);
        assert(!price_before(desc, p, s[0].0) && p != s[0].0);
        assert(price_before(desc, s[0].0, p));
        assert forall|a: int| 0 <= a < r.len() implies (#[trigger] r[a].0) == p || has_price(
            s,
            r[a].0,
        ) by {
            if a == 0 {
                assert(s[0].0 == s[0].0);
            } else {
                assert(r[a] == rt[a - 1]);
                if rt[a - 1].0 != p {
                    assert(has_price(t, rt[a - 1].0));
                    let j = choose|j: int| 0 <= j < t.len() && (#[trigger] t[j].0) == rt[a - 1].0;
                    assert(s[j + 1].0 == rt[a - 1].0);
                }
            }
        }
        assert forall|a: int, b: int| 0 <= a < b < r.len() implies price_before(
            desc,
            #[trigger] r[a].0,
            #[trigger] r[b].0,
        ) by {
            if a == 0 {
                assert(r[b] == rt[b - 1]);
                if rt[b - 1].0 == p {
                    assert(price_before(desc, s[0].0, p));
                } else {
                    assert(has_price(t, rt[b - 1].0));
                    let j = choose|j: int| 0 <= j < t.len() && (#[trigger] t[j].0) == rt[b - 1].0;
                    assert(price_before(desc, s[0].0, s[j + 1].0));
                }
            } else {
                assert(r[a] == rt[a - 1] && r[b] == rt[b - 1]);
            }
        }
    }
}

/// Removing a price leaves a side strictly ordered.
proof fn lemma_remove_price_sorted(desc: bool, s: Seq<(DecimalPair, DecimalPair)>, p: DecimalPair)
    requires
        sorted_side(desc, s),
    ensures
        sorted_side(desc, remove_price(s, p)),
    decreases s.len(),
{
    if s.len() > 0 {
        let r = remove_price(s, p);
        if s[0].0 == p {
            assert(forall|i: int, j: int|
                0 <= i < j < r.len() ==> price_before(desc, #[trigger] r[i].0, #[trigger] r[j].0));
        } else {
            let t = s.drop_first();
            assert(forall|i: int, j: int|
                0 <= i < j < t.len() ==> price_before(desc, #[trigger] t[i].0, #[trigger] t[j].0));
            lemma_remove_price_sorted(desc, t, p);
            let rt = remove_price(t, p);
            assert(r == seq![s[0]] + rt);
            lemma_remove_price_subset(t, p);
            assert forall|a: int, b: int| 0 <= a < b < r.len() implies price_before(
                desc,
                #[trigger] r[a].0,
                #[trigger] r[b].0,
            ) by {
                if a == 0 {
                    assert(r[b] == rt[b - 1]);
                    assert(has_price(t, rt[b - 1].0));
                    let j = choose|j: int| 0 <= j < t.len() && (#[trigger] t[j].0) == rt[b - 1].0;
                    assert(price_before(desc, s[0].0, s[j + 1].0));
                } else {
                    assert(r[a] == rt[a - 1] && r[b] == rt[b - 1]);
                }
            }
        }
    }
}

/// Every price left after a removal was already resting in the side.
proof fn lemma_remove_price_subset(s: Seq<(DecimalPair, DecimalPair)>, p: DecimalPair)
    ensures
        forall|a: int|
            0 <= a < remove_price(s, p).len() ==> has_price(s, #[trigger] remove_price(s, p)[a].0),
    decreases s.len(),
{
    let r = remove_price(s, p);
    if s.len() > 0 {
        if s[0].0 == p {
            assert forall|a: int| 0 <= a < r.len() implies has_price(s, #[trigger] r[a].0) by {
                assert(r[a] == s[a + 1]);
                assert(s[a + 1].0 == s[a + 1].0);
            }
        } else {
            let t = s.drop_first();
            lemma_remove_price_subset(t, p);
            let rt = remove_price(t, p);
            assert(r == seq![s[0]] + rt);
            assert forall|a: int| 0 <= a < r.len() implies has_price(s, #[trigger] r[a].0) by {
                if a == 0 {
                    assert(s[0].0 == s[0].0);
                } else {
                    assert(r[a] == rt[a - 1]);
                    assert(has_price(t, rt[a - 1].0));
                    let j = choose|j: int| 0 <= j < t.len() && (#[trigger] t[j].0) == rt[a - 1].0;
                    assert(s[j + 1].0 == rt[a - 1].0);
                }
            }
        }
    }
}

/// Law: an upsert keeps the book well formed.
pub proof fn lemma_upsert_wf(v: BookView, side: Side, p: DecimalPair, q: DecimalPair)
    requires
        v.wf(),
    ensures
        v.upsert(side, p, q).wf(),
{
    match side {
        Side::Buy => lemma_upsert_side_sorted(true, v.bids, p, q),
        Side::Sell => lemma_upsert_side_sorted(false, v.asks, p, q),
    }
}

/// Law: a removal keeps the book well formed.
pub proof fn lemma_remove_wf(v: BookView, side: Side, p: DecimalPair)
    requires
        v.wf(),
    ensures
        v.remove(side, p).wf(),
{
    match side {
        Side::Buy => lemma_remove_price_sorted(true, v.bids, p),
        Side::Sell => lemma_remove_price_sorted(false, v.asks, p),
    }
}

/// Upserting the same level twice gives the same side as upserting it once.
proof fn lemma_upsert_side_idempotent(
    desc: bool,
    s: Seq<(DecimalPair, DecimalPair)>,
    p: DecimalPair,
    q: DecimalPair,
)
    ensures
        upsert_side(desc, upsert_side(desc, s, p, q), p, q) == upsert_side(desc, s, p, q),
    decreases s.len(),
{
    let u = upsert_side(desc, s, p, q);
    if s.len() == 0 {
        assert(u == seq![(p, q)]);
        assert(u[0].0 == p);
        assert(upsert_side(desc, u, p, q) =~= u);
    } else if p == s[0].0 {
        assert(u == seq![(p, q)] + s.drop_first());
        assert(u[0].0 == p);
        assert(upsert_side(desc, u, p, q) == seq![(p, q)] + u.drop_first());
        assert(upsert_side(desc, u, p, q) =~= u);
    } else if price_before(desc, p, s[0].0) {
        assert(u == seq![(p, q)] + s);
        assert(u[0].0 == p);
        assert(upsert_side(desc, u, p, q) == seq![(p, q)] + u.drop_first());
        assert(upsert_side(desc, u, p, q) =~= u);
    } else {
        let t = s.drop_first();
        lemma_upsert_side_idempotent(desc, t, p, q);
        assert(u == seq![s[0]] + upsert_side(desc, t, p, q));
        assert(u[0] == s[0]);
        assert(u.drop_first() =~= upsert_side(desc, t, p, q));
        assert(upsert_side(desc, u, p, q) == seq![u[0]] + upsert_side(desc, u.drop_first(), p, q));
        assert(upsert_side(desc, u, p, q) =~= u);
    }
}

/// Law: upserting the same level twice leaves the book exactly as one
/// upsert does.
pub proof fn lemma_upsert_idempotent(v: BookView, side: Side, p: DecimalPair, q: DecimalPair)
    ensures
        v.upsert(side, p, q).upsert(side, p, q) == v.upsert(side, p, q),
{
    match side {
        Side::Buy => lemma_upsert_side_idempotent(true, v.bids, p, q),
        Side::Sell => lemma_upsert_side_idempotent(false, v.asks, p, q),
    }
    assert(v.upsert(side, p, q).upsert(side, p, q) =~= v.upsert(side, p, q));
}

/// Removing an absent price leaves a side unchanged.
proof fn lemma_remove_price_absent(s: Seq<(DecimalPair, DecimalPair)>, p: DecimalPair)
    requires
        !has_price(s, p),
    ensures
        remove_price(s, p) == s,
    decreases s.len(),
{
    if s.len() > 0 {
        assert(s[0].0 != p);
        let t = s.drop_first();
        assert(!has_price(t, p)) by {
            if has_price(t, p) {
                let j = choose|j: int| 0 <= j < t.len() && (#[trigger] t[j].0) == p;
                assert(s[j + 1].0 == p);
            }
        }
        lemma_remove_price_absent(t, p);
        assert(remove_price(s, p) =~= s);
    }
}

/// Law: removing a price absent from the chosen side leaves the book
/// unchanged.
pub proof fn lemma_remove_absent(v: BookView, side: Side, p: DecimalPair)
    requires
        !has_price(v.side(side), p),
    ensures
        v.remove(side, p) == v,
{
    match side {
        Side::Buy => lemma_remove_price_absent(v.bids, p),
        Side::Sell => lemma_remove_price_absent(v.asks, p),
    }
    assert(v.remove(side, p) =~= v);
}

/// Law: removing a price deletes every level at it from the chosen side.
pub proof fn lemma_remove_deletes(v: BookView, side: Side, p: DecimalPair)
    requires
        v.wf(),
    ensures
        !has_price(v.remove(side, p).side(side), p),
{
    match side {
        Side::Buy => lemma_remove_price_deletes(true, v.bids, p),
        Side::Sell => lemma_remove_price_deletes(false, v.asks, p),
    }
}

/// On a strictly ordered side a price rests at most once, so one removal
/// deletes it entirely.
proof fn lemma_remove_price_deletes(desc: bool, s: Seq<(DecimalPair, DecimalPair)>, p: DecimalPair)
    requires
        sorted_side(desc, s),
    ensures
        !has_price(remove_price(s, p), p),
    decreases s.len(),
{
    if s.len() > 0 {
        let r = remove_price(s, p);
        if s[0].0 == p {
            assert(r == s.drop_first());
            if has_price(r, p) {
                let j = choose|j: int| 0 <= j < r.len() && (#[trigger] r[j].0) == p;
                assert(s[j + 1].0 == p);
                assert(price_before(desc, s[0].0, s[j + 1].0));
            }
        } else {
            let t = s.drop_first();
            assert(forall|i: int, j: int|
                0 <= i < j < t.len() ==> price_before(desc, #[trigger] t[i].0, #[trigger] t[j].0));
            lemma_remove_price_deletes(desc, t, p);
            let rt = remove_price(t, p);
            assert(r == seq![s[0]] + rt);
            if has_price(r, p) {
                let j = choose|j: int| 0 <= j < r.len() && (#[trigger] r[j].0) == p;
                assert(j > 0);
                assert(rt[j - 1].0 == p);
            }
        }
    }
}

/// The book after a sequence of upserts, applied in order.
pub open spec fn apply_upserts(v: BookView, ops: Seq<(Side, DecimalPair, DecimalPair)>) -> BookView
    decreases ops.len(),
{
    if ops.len() == 0 {
        v
    } else {
        apply_upserts(v.upsert(ops[0].0, ops[0].1, ops[0].2), ops.drop_first())
    }
}

/// Law: after any sequence of upserts on a well-formed book, the bids still
/// iterate in strictly decreasing and the asks in strictly increasing price
/// order.
pub proof fn lemma_upserts_sorted(v: BookView, ops: Seq<(Side, DecimalPair, DecimalPair)>)
    requires
        v.wf(),
    ensures
        apply_upserts(v, ops).wf(),
    decreases ops.len(),
{
    if ops.len() > 0 {
        lemma_upsert_wf(v, ops[0].0, ops[0].1, ops[0].2);
        lemma_upserts_sorted(v.upsert(ops[0].0, ops[0].1, ops[0].2), ops.drop_first());
    }
}

/// The quantity resting at `p` in `s`: the first level at that price, which
/// on a strictly ordered side is the only one.
pub open spec fn value_at(s: Seq<(DecimalPair, DecimalPair)>, p: DecimalPair) -> Option<
    DecimalPair,
>
    decreases s.len(),
{
    if s.len() == 0 {
        Option::None
    } else if s[0].0 == p {
        Option::Some(s[0].1)
    } else {
        value_at(s.drop_first(), p)
    }
}

/// A price has a quantity exactly when some level rests at it.
pub proof fn lemma_value_at_has_price(s: Seq<(DecimalPair, DecimalPair)>, p: DecimalPair)
    ensures
        value_at(s, p) is Some <==> has_price(s, p),
    decreases s.len(),
{
    if s.len() > 0 && s[0].0 != p {
        let t = s.drop_first();
        lemma_value_at_has_price(t, p);
        if has_price(t, p) {
            let j = choose|j: int| 0 <= j < t.len() && (#[trigger] t[j].0) == p;
            assert(s[j + 1].0 == p);
        }
        if has_price(s, p) {
            let j = choose|j: int| 0 <= j < s.len() && (#[trigger] s[j].0) == p;
            assert(t[j - 1].0 == p);
        }
    }
}

/// `value_at` reads the first level the scan below finds, or none at all.
proof fn lemma_value_at_index(s: Seq<(DecimalPair, DecimalPair)>, p: DecimalPair, i: int)
    requires
        0 <= i <= s.len(),
        forall|j: int| 0 <= j < i ==> (#[trigger] s[j].0) != p,
        i < s.len() ==> s[i].0 == p,
    ensures
        i < s.len() ==> value_at(s, p) == Option::Some(s[i].1),
        i == s.len() ==> value_at(s, p) is None,
    decreases i,
{
    if i == 0 {
    } else {
        let t = s.drop_first();
        assert(forall|j: int| 0 <= j < i - 1 ==> (#[trigger] t[j].0) != p);
        lemma_value_at_index(t, p, i - 1);
    }
}

/// Law: an upsert sets exactly the quantity at its price; every other price
/// keeps the quantity it had.
pub proof fn lemma_upsert_contents(
    desc: bool,
    s: Seq<(DecimalPair, DecimalPair)>,
    p: DecimalPair,
    q: DecimalPair,
)
    ensures
        value_at(upsert_side(desc, s, p, q), p) == Option::Some(q),
        forall|x: DecimalPair|
            x != p ==> value_at(upsert_side(desc, s, p, q), x) == #[trigger] value_at(s, x),
    decreases s.len(),
{
    let u = upsert_side(desc, s, p, q);
    if s.len() == 0 {
        assert(u == seq![(p, q)]);
        assert(u.drop_first() =~= s);
    } else if p == s[0].0 {
        assert(u == seq![(p, q)] + s.drop_first());
        assert(u[0] == (p, q));
        assert(u.drop_first() =~= s.drop_first());
    } else if price_before(desc, p, s[0].0) {
        assert(u == seq![(p, q)] + s);
        assert(u[0] == (p, q));
        assert(u.drop_first() =~= s);
    } else {
        let t = s.drop_first();
        lemma_upsert_contents(desc, t, p, q);
        assert(u == seq![s[0]] + upsert_side(desc, t, p, q));
        assert(u[0] == s[0]);
        assert(u.drop_first() =~= upsert_side(desc, t, p, q));
        assert(value_at(u, p) == value_at(upsert_side(desc, t, p, q), p));
        assert forall|x: DecimalPair| x != p implies value_at(u, x) == #[trigger] value_at(
            s,
            x,
        ) by {
            if x != s[0].0 {
                assert(value_at(u, x) == value_at(upsert_side(desc, t, p, q), x));
                assert(value_at(s, x) == value_at(t, x));
            }
        }
    }
}

/// Law: a removal clears exactly its price (none is left, on an ordered
/// side); every other price keeps the quantity it had.
pub proof fn lemma_remove_contents(desc: bool, s: Seq<(DecimalPair, DecimalPair)>, p: DecimalPair)
    requires
        sorted_side(desc, s),
    ensures
        value_at(remove_price(s, p), p) is None,
        forall|x: DecimalPair|
            x != p ==> value_at(remove_price(s, p), x) == #[trigger] value_at(s, x),
    decreases s.len(),
{
    lemma_remove_price_deletes(desc, s, p);
    lemma_value_at_has_price(remove_price(s, p), p);
    let r = remove_price(s, p);
    if s.len() > 0 {
        if s[0].0 == p {
            assert(r == s.drop_first());
            assert forall|x: DecimalPair| x != p implies value_at(r, x) == #[trigger] value_at(
                s,
                x,
            ) by {
                assert(value_at(s, x) == value_at(s.drop_first(), x));
            }
        } else {
            let t = s.drop_first();
            assert(forall|i: int, j: int|
                0 <= i < j < t.len() ==> price_before(desc, #[trigger] t[i].0, #[trigger] t[j].0));
            lemma_remove_contents(desc, t, p);
            assert(r == seq![s[0]] + remove_price(t, p));
            assert(r[0] == s[0]);
            assert(r.drop_first() =~= remove_price(t, p));
            assert forall|x: DecimalPair| x != p implies value_at(r, x) == #[trigger] value_at(
                s,
                x,
            ) by {
                if x != s[0].0 {
                    assert(value_at(r, x) == value_at(remove_price(t, p), x));
                    assert(value_at(s, x) == value_at(t, x));
                }
            }
        }
    }
}

impl OrderBook {
    /// The quantity resting at `key` on the chosen side, if any: the point
    /// query behind a consumer's level lookup.
    pub fn quantity_at(&self, side: Side, key: DecimalPair) -> (r: Option<DecimalPair>)
        ensures
            r == value_at(self@.side(side), key),
    {
        let src: &Vec<(DecimalPair, DecimalPair)> = match side {
            Side::Buy => &self.bids,
            Side::Sell => &self.asks,
        };
        let mut i: usize = 0;
        while i < src.len()
            invariant
                0 <= i <= src@.len(),
                src@ == self@.side(side),
                forall|j: int| 0 <= j < i ==> (#[trigger] src@[j].0) != key,
            decreases src@.len() - i,
        {
            if src[i].0 == key {
                proof {
                    lemma_value_at_index(src@, key, i as int);
                }
                return Some(src[i].1);
            }
            i += 1;
        }
        proof {
            lemma_value_at_index(src@, key, src@.len() as int);
        }
        None
    }
}

/// The text of one level, `[price` … `quantity]`, with `sep` between the
/// two numbers.
pub open spec fn level_text(l: (DecimalPair, DecimalPair), sep: Seq<char>) -> Seq<char> {
    seq!['['] + crate::decimal::format_spec(l.0) + sep + crate::decimal::format_spec(l.1) + seq![']']
}

/// The bid half of the book digest: the two best bids, second best first.
pub open spec fn bids_text(s: Seq<(DecimalPair, DecimalPair)>) -> Seq<char> {
    if s.len() == 0 {
        Seq::empty()
    } else if s.len() == 1 {
        level_text(s[0], seq![':'])
    } else {
        level_text(s[1], seq![':']) + level_text(s[0], seq![':'])
    }
}

/// The ask half of the book digest: the two best asks, best first.
pub open spec fn asks_text(s: Seq<(DecimalPair, DecimalPair)>) -> Seq<char> {
    if s.len() == 0 {
        Seq::empty()
    } else if s.len() == 1 {
        level_text(s[0], seq![':', ' '])
    } else {
        level_text(s[0], seq![':', ' ']) + level_text(s[1], seq![':', ' '])
    }
}

/// The one-line digest of a book: up to two levels of each side around a
/// bar, the best bid and ask innermost.
pub open spec fn render_spec(v: BookView) -> Seq<char> {
    seq!['<'] + bids_text(v.bids) + seq!['|'] + asks_text(v.asks) + seq!['>']
}

/// Appends `[price<sep>quantity]` for one level; the separator is `": "`
/// when `spaced`, `":"` otherwise.
fn push_level(out: &mut String, l: &(DecimalPair, DecimalPair), spaced: bool)
    ensures
        final (out)@ == old(out)@ + level_text(
            *l,
            if spaced {
                seq![':', ' ']
            } else {
                seq![':']
            },
        ),
{
    out.append("[");
    let p = l.0.format();
    out.append(p.as_str());
    if spaced {
        out.append(": ");
    } else {
        out.append(":");
    }
    let q = l.1.format();
    out.append(q.as_str());
    out.append("]");
    proof {
        reveal_strlit("[");
        reveal_strlit(":");
        reveal_strlit(": ");
        reveal_strlit("]");
        assert(final (out)@ =~= old(out)@ + level_text(
            *l,
            if spaced {
                seq![':', ' ']
            } else {
                seq![':']
            },
        ));
    }
}

impl OrderBook {
    /// Renders the one-line digest of the book: up to two levels of each
    /// side around a bar, best bid and best ask innermost.
    pub fn render(&self) -> (r: String)
        ensures
            r@ == render_spec(self@),
    {
        let mut out = String::new();
        out.append("<");
        if self.bids.len() >= 2 {
            push_level(&mut out, &self.bids[1], false);
        }
        if self.bids.len() >= 1 {
            push_level(&mut out, &self.bids[0], false);
        }
        out.append("|");
        if self.asks.len() >= 1 {
            push_level(&mut out, &self.asks[0], true);
        }
        if self.asks.len() >= 2 {
            push_level(&mut out, &self.asks[1], true);
        }
        out.append(">");
        proof {
            reveal_strlit("<");
            reveal_strlit("|");
            reveal_strlit(">");
            assert(out@ =~= render_spec(self@));
        }
        out
    }
}

impl BookView {
    /// The defensive internal-consistency condition of a populated book: no
    /// price rests on both sides at once, and no level holds the zero
    /// quantity (a level driven to zero is removed, never left behind).
    pub open spec fn consistent(self) -> bool {
        &&& forall|p: DecimalPair| has_price(self.bids, p) ==> !has_price(self.asks, p)
        &&& forall|i: int|
            0 <= i < self.bids.len() ==> (#[trigger] self.bids[i].1) != DecimalPair::zero_spec()
        &&& forall|i: int|
            0 <= i < self.asks.len() ==> (#[trigger] self.asks[i].1) != DecimalPair::zero_spec()
    }
}

impl OrderBook {
    /// The defensive check of `BookView::consistent`, for a debug build to
    /// assert after a mutation.
    pub fn check_consistent(&self) -> (r: bool)
        ensures
            r == self@.consistent(),
    {
        let mut i: usize = 0;
        while i < self.bids.len()
            invariant
                0 <= i <= self@.bids.len(),
                forall|j: int|
                    0 <= j < i ==> !has_price(self@.asks, #[trigger] self@.bids[j].0)
                        && self@.bids[j].1 != DecimalPair::zero_spec(),
            decreases self@.bids.len() - i,
        {
            if self.bids[i].1.is_zero() {
                return false;
            }
            if vec_has_price(&self.asks, &self.bids[i].0) {
                proof {
                    assert(has_price(self@.bids, self@.bids[i as int].0));
                }
                return false;
            }
            proof {
                assert(!has_price(self@.asks, self@.bids[i as int].0));
                assert(self@.bids[i as int].1 != DecimalPair::zero_spec());
                assert forall|j: int| 0 <= j < i + 1 implies !has_price(
                    self@.asks,
                    #[trigger] self@.bids[j].0,
                ) && self@.bids[j].1 != DecimalPair::zero_spec() by {
                    if j < i {
                        assert(!has_price(self@.asks, self@.bids[j].0));
                    }
                }
            }
            i += 1;
        }
        let mut j: usize = 0;
        while j < self.asks.len()
            invariant
                0 <= j <= self@.asks.len(),
                forall|k: int|
                    0 <= k < self@.bids.len() ==> !has_price(self@.asks, #[trigger] self@.bids[k].0)
                        && self@.bids[k].1 != DecimalPair::zero_spec(),
                forall|k: int| 0 <= k < j ==> (#[trigger] self@.asks[k].1) != DecimalPair::zero_spec(),
            decreases self@.asks.len() - j,
        {
            if self.asks[j].1.is_zero() {
                return false;
            }
            j += 1;
        }
        proof {
            assert forall|p: DecimalPair| has_price(self@.bids, p) implies !has_price(
                self@.asks,
                p,
            ) by {
                let k = choose|k: int|
                    0 <= k < self@.bids.len() && (#[trigger] self@.bids[k].0) == p;
            }
            assert forall|k: int| 0 <= k < self@.bids.len() implies (#[trigger] self@.bids[k].1)
                != DecimalPair::zero_spec() by {
                assert(!has_price(self@.asks, self@.bids[k].0));
            }
        }
        true
    }
}

/// Whether some level of `v` rests at price `p`.
fn vec_has_price(v: &Vec<(DecimalPair, DecimalPair)>, p: &DecimalPair) -> (r: bool)
    ensures
        r == has_price(v@, *p),
{
    let mut i: usize = 0;
    while i < v.len()
        invariant
            0 <= i <= v@.len(),
            forall|k: int| 0 <= k < i ==> (#[trigger] v@[k].0) != *p,
        decreases v@.len() - i,
    {
        if v[i].0 == *p {
            proof {
                assert(has_price(v@, *p));
            }
            return true;
        }
        i += 1;
    }
    proof {
        if has_price(v@, *p) {
            let k = choose|k: int| 0 <= k < v@.len() && (#[trigger] v@[k].0) == *p;
            assert(false);
        }
    }
    false
}

/// Whether price `a` rests before price `b` on a side.
fn price_before_exec(desc: bool, a: &DecimalPair, b: &DecimalPair) -> (r: bool)
    ensures
        r == price_before(desc, *a, *b),
{
    if desc {
        b.lt(a)
    } else {
        a.lt(b)
    }
}


} // verus!
