use vstd::prelude::*;

use crate::level::{has_id, total, LevelView, Order, PriceLevel, Side};
use crate::side::{
    add_to_side, ahead, better, drop_order_at, holding, in_front, lemma_ahead_bounds,
    lemma_holding_bounds, levels_view, remove_anywhere, remove_from_side, side_add, side_ok,
    side_remove, side_remove_any, side_sorted, side_wf, sweep, sweep_side,
};

verus! {

/// One decoded event of the feed.
#[derive(Clone, Copy, Debug, PartialEq, Eq, Structural)]
pub enum Event {
    OrderCreated(Order),
    OrderChanged(Order),
    OrderDeleted(Order),
    Trade,
    Other,
}

/// The first levels of each side, as (price, aggregate size) pairs in the
/// side's order.
pub struct Snapshot {
    pub bids: Vec<(u64, u128)>,
    pub asks: Vec<(u64, u128)>,
}

/// A level as (price, aggregate size).
pub open spec fn summary(l: LevelView) -> (u64, u128) {
    (l.price, total(l.orders) as u128)
}

/// The first `depth` levels of a side (all of them, where it has fewer).
pub open spec fn top(s: Seq<LevelView>, depth: nat) -> Seq<(u64, u128)> {
    let n = if depth < s.len() {
        depth as int
    } else {
        s.len() as int
    };
    s.take(n).map_values(|l: LevelView| summary(l))
}

/// The bid side (best, i.e. highest, price first) and the ask side (lowest
/// price first).
pub struct OrderBook {
    pub bids: Vec<PriceLevel>,
    pub asks: Vec<PriceLevel>,
}

pub struct BookView {
    pub bids: Seq<LevelView>,
    pub asks: Seq<LevelView>,
}

impl View for OrderBook {
    type V = BookView;

    open spec fn view(&self) -> BookView {
        BookView { bids: levels_view(self.bids@), asks: levels_view(self.asks@) }
    }
}

/// The best bid is below the best ask, where both exist.
pub open spec fn uncrossed(v: BookView) -> bool {
    v.bids.len() > 0 && v.asks.len() > 0 ==> v.bids[0].price < v.asks[0].price
}

/// Both sides well formed and the book not crossed.
pub open spec fn book_ok(v: BookView) -> bool {
    &&& side_ok(v.bids, Side::Buy)
    &&& side_ok(v.asks, Side::Sell)
    &&& uncrossed(v)
}

/// The book after an order is created: added on its side, and the levels
/// of the other side that it would cross swept away.
pub open spec fn created(v: BookView, o: Order) -> BookView {
    match o.side {
        Side::Buy => BookView {
            bids: side_add(v.bids, Side::Buy, o),
            asks: sweep(v.asks, Side::Sell, o.price),
        },
        Side::Sell => BookView {
            bids: sweep(v.bids, Side::Buy, o.price),
            asks: side_add(v.asks, Side::Sell, o),
        },
    }
}

/// The book after an order is deleted from the level at its price.
pub open spec fn deleted(v: BookView, o: Order) -> BookView {
    match o.side {
        Side::Buy => BookView { bids: side_remove(v.bids, Side::Buy, o.price, o.id), asks: v.asks },
        Side::Sell => BookView {
            bids: v.bids,
            asks: side_remove(v.asks, Side::Sell, o.price, o.id),
        },
    }
}

/// Whether the level at `price` on this side holds order `id`.
pub open spec fn rests_at(s: Seq<LevelView>, side: Side, price: u64, id: u64) -> bool {
    let k = ahead(s, side, price, false) as int;
    k < s.len() && s[k].price == price && has_id(s[k].orders, id)
}

/// Whether a delete of this order finds it; a stale delete does not.
pub open spec fn delete_finds(v: BookView, o: Order) -> bool {
    match o.side {
        Side::Buy => rests_at(v.bids, Side::Buy, o.price, o.id),
        Side::Sell => rests_at(v.asks, Side::Sell, o.price, o.id),
    }
}

/// The book with order `id` taken from whichever level of this side holds it.
pub open spec fn withdrawn(v: BookView, side: Side, id: u64) -> BookView {
    match side {
        Side::Buy => BookView { bids: side_remove_any(v.bids, id), asks: v.asks },
        Side::Sell => BookView { bids: v.bids, asks: side_remove_any(v.asks, id) },
    }
}

/// Whether some level of this side holds order `id`.
pub open spec fn side_holds(v: BookView, side: Side, id: u64) -> bool {
    match side {
        Side::Buy => holding(v.bids, id) < v.bids.len(),
        Side::Sell => holding(v.asks, id) < v.asks.len(),
    }
}

/// The book after an order changes: its old entry withdrawn, then the
/// order created with its new price and size.
pub open spec fn changed(v: BookView, o: Order) -> BookView {
    created(withdrawn(v, o.side, o.id), o)
}

/// The book after any event; trades and other events leave it as it is.
pub open spec fn applied(v: BookView, e: Event) -> BookView {
    match e {
        Event::OrderCreated(o) => created(v, o),
        Event::OrderChanged(o) => changed(v, o),
        Event::OrderDeleted(o) => deleted(v, o),
        Event::Trade => v,
        Event::Other => v,
    }
}

/// Whether an event is a stale delete.
pub open spec fn is_stale(v: BookView, e: Event) -> bool {
    match e {
        Event::OrderDeleted(o) => !delete_finds(v, o),
        _ => false,
    }
}

/// The first level of a side after an order is added is either the new
/// order's level or the old first level.
proof fn lemma_add_front(s: Seq<LevelView>, side: Side, o: Order)
    ensures
        side_add(s, side, o).len() > 0,
        side_add(s, side, o)[0].price == o.price || (s.len() > 0 && side_add(s, side, o)[0].price
            == s[0].price),
{
    lemma_ahead_bounds(s, side, o.price, false);
}

/// Sweeping leaves only levels behind `price`, and no better than the old
/// first level.
proof fn lemma_sweep_front(s: Seq<LevelView>, side: Side, price: u64)
    requires
        side_ok(s, side),
    ensures
        sweep(s, side, price).len() > 0 ==> {
            &&& better(side, price, sweep(s, side, price)[0].price)
            &&& (sweep(s, side, price)[0].price == s[0].price || better(
                side,
                s[0].price,
                sweep(s, side, price)[0].price,
            ))
        },
{
    lemma_ahead_bounds(s, side, price, true);
    let m = ahead(s, side, price, true) as int;
    if m < s.len() {
        assert(sweep(s, side, price)[0] == s[m]);
        assert(!in_front(side, s[m].price, price, true));
    }
}

/// Taking an order out of a level never brings a better first level.
proof fn lemma_drop_front(s: Seq<LevelView>, side: Side, k: int, id: u64)
    requires
        side_ok(s, side),
        0 <= k < s.len(),
    ensures
        drop_order_at(s, k, id).len() > 0 ==> (drop_order_at(s, k, id)[0].price == s[0].price
            || better(side, s[0].price, drop_order_at(s, k, id)[0].price)),
{
    let t = drop_order_at(s, k, id);
    if t.len() > 0 && k == 0 && t.len() < s.len() {
        assert(t[0] == s[1]);
    }
}

/// The first `depth` levels of a side as (price, aggregate size).
fn first_levels(levels: &Vec<PriceLevel>, side: Side, depth: usize) -> (r: Vec<(u64, u128)>)
    requires
        side_wf(levels@, side),
    ensures
        r@ == top(levels_view(levels@), depth as nat),
{
    let n = if depth < levels.len() {
        depth
    } else {
        levels.len()
    };
    let ghost s = levels_view(levels@);
    let mut r: Vec<(u64, u128)> = Vec::new();
    let mut i: usize = 0;
    while i < n
        invariant
            0 <= i <= n <= levels@.len(),
            side_wf(levels@, side),
            s == levels_view(levels@),
            r@ =~= s.take(i as int).map_values(|l: LevelView| summary(l)),
        decreases n - i,
    {
        proof {
            assert(levels@[i as int].wf());
            assert(s[i as int] == levels@[i as int]@);
        }
        r.push((levels[i].price, levels[i].size));
        i = i + 1;
        proof {
            assert(r@ =~= s.take(i as int).map_values(|l: LevelView| summary(l)));
        }
    }
    r
}

impl OrderBook {
    /// Both sides well formed, aggregate sizes matching, and the book not
    /// crossed.
    pub open spec fn wf(&self) -> bool {
        &&& side_wf(self.bids@, Side::Buy)
        &&& side_wf(self.asks@, Side::Sell)
        &&& uncrossed(self@)
    }

    /// An empty book.
    pub fn new() -> (r: OrderBook)
        ensures
            r.wf(),
            r@.bids.len() == 0,
            r@.asks.len() == 0,
    {
        let r = OrderBook { bids: Vec::new(), asks: Vec::new() };
        assert(r@.bids =~= Seq::<LevelView>::empty());
        r
    }

    /// Adds a new order at its price, then sweeps the other side of any
    /// level that the order's price reaches.
    pub fn apply_order_created(&mut self, o: Order)
        requires
            old(self).wf(),
        ensures
            final(self).wf(),
            final(self)@ == created(old(self)@, o),
    {
        let ghost v = self@;
        proof {
            lemma_add_front(v.bids, Side::Buy, o);
            lemma_add_front(v.asks, Side::Sell, o);
        }
        match o.side {
            Side::Buy => {
                add_to_side(&mut self.bids, Side::Buy, o);
                proof {
                    lemma_sweep_front(v.asks, Side::Sell, o.price);
                }
                sweep_side(&mut self.asks, Side::Sell, o.price);
            },
            Side::Sell => {
                add_to_side(&mut self.asks, Side::Sell, o);
                proof {
                    lemma_sweep_front(v.bids, Side::Buy, o.price);
                }
                sweep_side(&mut self.bids, Side::Buy, o.price);
            },
        }
    }

    /// Deletes an order from the level at its price, evicting the level if
    /// it is left empty. Returns whether the order was found; a stale delete
    /// leaves the book unchanged.
    pub fn apply_order_deleted(&mut self, o: Order) -> (found: bool)
        requires
            old(self).wf(),
        ensures
            final(self).wf(),
            final(self)@ == deleted(old(self)@, o),
            found == delete_finds(old(self)@, o),
    {
        let ghost v = self@;
        proof {
            lemma_ahead_bounds(v.bids, Side::Buy, o.price, false);
            lemma_ahead_bounds(v.asks, Side::Sell, o.price, false);
            let kb = ahead(v.bids, Side::Buy, o.price, false) as int;
            let ka = ahead(v.asks, Side::Sell, o.price, false) as int;
            if kb < v.bids.len() {
                lemma_drop_front(v.bids, Side::Buy, kb, o.id);
            }
            if ka < v.asks.len() {
                lemma_drop_front(v.asks, Side::Sell, ka, o.id);
            }
        }
        match o.side {
            Side::Buy => remove_from_side(&mut self.bids, Side::Buy, o.price, o.id),
            Side::Sell => remove_from_side(&mut self.asks, Side::Sell, o.price, o.id),
        }
    }

    /// Withdraws the order of this id from whichever level of its side holds
    /// it, then creates it anew with the event's price and size. Returns
    /// whether an earlier entry was found (a change with none is tolerated).
    pub fn apply_order_changed(&mut self, o: Order) -> (had_prior: bool)
        requires
            old(self).wf(),
        ensures
            final(self).wf(),
            final(self)@ == changed(old(self)@, o),
            had_prior == side_holds(old(self)@, o.side, o.id),
    {
        let ghost v = self@;
        proof {
            lemma_holding_bounds(v.bids, o.id);
            lemma_holding_bounds(v.asks, o.id);
            let kb = holding(v.bids, o.id) as int;
            let ka = holding(v.asks, o.id) as int;
            if kb < v.bids.len() {
                lemma_drop_front(v.bids, Side::Buy, kb, o.id);
            }
            if ka < v.asks.len() {
                lemma_drop_front(v.asks, Side::Sell, ka, o.id);
            }
        }
        let had_prior = match o.side {
            Side::Buy => remove_anywhere(&mut self.bids, Side::Buy, o.id),
            Side::Sell => remove_anywhere(&mut self.asks, Side::Sell, o.id),
        };
        self.apply_order_created(o);
        had_prior
    }

    /// The first `depth` levels of each side.
    pub fn snapshot(&self, depth: usize) -> (r: Snapshot)
        requires
            self.wf(),
        ensures
            r.bids@ == top(self@.bids, depth as nat),
            r.asks@ == top(self@.asks, depth as nat),
    {
        Snapshot { bids: first_levels(&self.bids, Side::Buy, depth), asks: first_levels(&self.asks, Side::Sell, depth) }
    }

    /// Applies one event. Returns whether it was a stale delete.
    pub fn apply(&mut self, e: &Event) -> (stale: bool)
        requires
            old(self).wf(),
        ensures
            final(self).wf(),
            side_sorted(final(self)@.bids, Side::Buy),
            side_sorted(final(self)@.asks, Side::Sell),
            final(self)@ == applied(old(self)@, *e),
            stale == is_stale(old(self)@, *e),
    {
        match e {
            Event::OrderCreated(o) => {
                self.apply_order_created(*o);
                false
            },
            Event::OrderChanged(o) => {
                self.apply_order_changed(*o);
                false
            },
            Event::OrderDeleted(o) => !self.apply_order_deleted(*o),
            Event::Trade => false,
            Event::Other => false,
        }
    }
}

} // verus!
