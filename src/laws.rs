use vstd::prelude::*;

use crate::book::{
    book_ok, created, delete_finds, deleted, top, BookView, OrderBook, Snapshot,
};
use crate::level::{
    has_id, ids_below, lemma_has_id, lemma_ids_below_bounds, lemma_with_order, total, with_order,
    lemma_without_id, without_id, LevelView, Order, Side,
};
use crate::side::{
    ahead, better, in_front, lemma_ahead_bounds, lemma_side_add_ok, opposite, side_add, side_ok,
    side_remove, sweep,
};

verus! {

/// The levels of one side of a book.
pub open spec fn side_levels(v: BookView, side: Side) -> Seq<LevelView> {
    match side {
        Side::Buy => v.bids,
        Side::Sell => v.asks,
    }
}

/// Deleting the last order of a level removes that level from its side;
/// deleting any other order of it lowers its aggregate size by exactly that
/// order's size and leaves it in place. The other side is untouched.
pub proof fn law_delete_from_level(v: BookView, o: Order)
    requires
        book_ok(v),
    ensures
        side_levels(deleted(v, o), opposite(o.side)) == side_levels(v, opposite(o.side)),
        forall|i: int, j: int|
            0 <= i < side_levels(v, o.side).len() && side_levels(v, o.side)[i].price == o.price
                && 0 <= j < side_levels(v, o.side)[i].orders.len()
                && #[trigger] side_levels(v, o.side)[i].orders[j].id == o.id ==> {
                let s = side_levels(v, o.side);
                let t = side_levels(deleted(v, o), o.side);
                &&& s[i].orders.len() == 1 ==> {
                    &&& t.len() + 1 == s.len()
                    &&& forall|m: int| 0 <= m < t.len() ==> (#[trigger] t[m]).price != o.price
                }
                &&& s[i].orders.len() > 1 ==> {
                    &&& t.len() == s.len()
                    &&& t[i].price == o.price
                    &&& total(t[i].orders) == total(s[i].orders) - s[i].orders[j].size
                }
            },
{
    let s = side_levels(v, o.side);
    let t = side_levels(deleted(v, o), o.side);
    let k = ahead(s, o.side, o.price, false) as int;
    lemma_ahead_bounds(s, o.side, o.price, false);
    assert forall|i: int, j: int|
        0 <= i < s.len() && s[i].price == o.price && 0 <= j < s[i].orders.len()
            && #[trigger] s[i].orders[j].id == o.id implies {
        &&& s[i].orders.len() == 1 ==> {
            &&& t.len() + 1 == s.len()
            &&& forall|m: int| 0 <= m < t.len() ==> (#[trigger] t[m]).price != o.price
        }
        &&& s[i].orders.len() > 1 ==> {
            &&& t.len() == s.len()
            &&& t[i].price == o.price
            &&& total(t[i].orders) == total(s[i].orders) - s[i].orders[j].size
        }
    } by {
        if i < k {
            assert(in_front(o.side, s[i].price, o.price, false));
        }
        if i > k {
            assert(better(o.side, s[k].price, s[i].price));
        }
        assert(i == k);
        let os = s[k].orders;
        lemma_has_id(os, o.id);
        lemma_ids_below_bounds(os, o.id);
        let q = ids_below(os, o.id) as int;
        if j != q {
            if j < q {
                assert(os[j].id < os[q].id);
            } else {
                assert(os[q].id < os[j].id);
            }
        }
        lemma_without_id(os, o.id, o.price);
        if os.len() == 1 {
            assert forall|m: int| 0 <= m < t.len() implies (#[trigger] t[m]).price != o.price by {
                if m < k {
                    assert(t[m] == s[m]);
                } else {
                    assert(t[m] == s[m + 1]);
                    assert(better(o.side, s[k].price, s[m + 1].price));
                }
            }
        }
    }
}

/// A stale delete, one that finds no such order at that price on that
/// side, leaves the book as it was.
pub proof fn law_stale_delete_unchanged(v: BookView, o: Order)
    requires
        book_ok(v),
        !delete_finds(v, o),
    ensures
        deleted(v, o) == v,
{
    let s = side_levels(v, o.side);
    let k = ahead(s, o.side, o.price, false) as int;
    lemma_ahead_bounds(s, o.side, o.price, false);
    if k < s.len() && s[k].price == o.price {
        lemma_has_id(s[k].orders, o.id);
        assert(without_id(s[k].orders, o.id) == s[k].orders);
        assert(side_remove(s, o.side, o.price, o.id) =~= s);
    }
    assert(side_levels(deleted(v, o), o.side) == side_remove(s, o.side, o.price, o.id));
    assert(deleted(v, o) =~= v) by {
        match o.side {
            Side::Buy => {},
            Side::Sell => {},
        }
    }
}

/// Two snapshots of one book at one depth are equal: a snapshot depends
/// on the book's state alone.
pub proof fn law_snapshot_repeatable(b: OrderBook, depth: usize, r1: Snapshot, r2: Snapshot)
    requires
        r1.bids@ == top(b@.bids, depth as nat),
        r1.asks@ == top(b@.asks, depth as nat),
        r2.bids@ == top(b@.bids, depth as nat),
        r2.asks@ == top(b@.asks, depth as nat),
    ensures
        r1.bids@ == r2.bids@,
        r1.asks@ == r2.asks@,
{
}

/// Sum of the sizes of the orders at `price`.
pub open spec fn sum_at(os: Seq<Order>, price: u64) -> int
    decreases os.len(),
{
    if os.len() == 0 {
        0
    } else {
        sum_at(os.drop_last(), price) + if os.last().price == price {
            os.last().size as int
        } else {
            0
        }
    }
}

/// The book after creating each order in turn.
pub open spec fn created_all(v: BookView, os: Seq<Order>) -> BookView
    decreases os.len(),
{
    if os.len() == 0 {
        v
    } else {
        created(created_all(v, os.drop_last()), os.last())
    }
}

/// A book with no level on either side.
pub open spec fn empty_book() -> BookView {
    BookView { bids: Seq::empty(), asks: Seq::empty() }
}

/// The distinct prices of some orders.
pub open spec fn prices(os: Seq<Order>) -> Set<u64> {
    os.map_values(|o: Order| o.price).to_set()
}

/// The prices of a side's levels.
pub open spec fn level_prices(s: Seq<LevelView>) -> Set<u64> {
    s.map_values(|l: LevelView| l.price).to_set()
}

/// Some level of the side has this price.
pub open spec fn has_price(s: Seq<LevelView>, p: u64) -> bool {
    exists|i: int| 0 <= i < s.len() && s[i].price == p
}

/// Some order was created at this price.
pub open spec fn some_at(os: Seq<Order>, p: u64) -> bool {
    exists|j: int| 0 <= j < os.len() && os[j].price == p
}

/// Some order has this id.
pub open spec fn some_id(os: Seq<Order>, id: u64) -> bool {
    exists|j: int| 0 <= j < os.len() && os[j].id == id
}

proof fn lemma_sum_at_none(os: Seq<Order>, p: u64)
    requires
        !some_at(os, p),
    ensures
        sum_at(os, p) == 0,
    decreases os.len(),
{
    if os.len() > 0 {
        let os1 = os.drop_last();
        if some_at(os1, p) {
            let j = choose|j: int| 0 <= j < os1.len() && os1[j].price == p;
            assert(os[j].price == p);
        }
        lemma_sum_at_none(os1, p);
        assert(os[os.len() - 1].price != p);
    }
}

proof fn lemma_with_order_ids(s: Seq<Order>, o: Order, m: int)
    requires
        0 <= m < with_order(s, o).len(),
    ensures
        with_order(s, o)[m].id == o.id || has_id(s, with_order(s, o)[m].id),
{
    lemma_ids_below_bounds(s, o.id);
    let k = ids_below(s, o.id) as int;
    let t = with_order(s, o);
    if k < s.len() && s[k].id == o.id {
        if m != k {
            assert(t[m] == s[m]);
        }
    } else {
        if m < k {
            assert(t[m] == s[m]);
        } else if m > k {
            assert(t[m] == s[m - 1]);
        }
    }
}

/// What holds of a side built by creating the orders `os` in turn: it is
/// well formed, its levels are at prices of `os`, every price of `os` has
/// its level, each level sums the sizes created at its price, and every
/// order it holds comes from `os`.
pub open spec fn built(s: Seq<LevelView>, side: Side, os: Seq<Order>) -> bool {
    &&& side_ok(s, side)
    &&& forall|i: int| 0 <= i < s.len() ==> total((#[trigger] s[i]).orders) == sum_at(os, s[i].price)
    &&& forall|i: int| 0 <= i < s.len() ==> some_at(os, (#[trigger] s[i]).price)
    &&& forall|j: int| 0 <= j < os.len() ==> has_price(s, (#[trigger] os[j]).price)
    &&& forall|i: int, m: int|
        0 <= i < s.len() && 0 <= m < s[i].orders.len() ==> some_id(os, (#[trigger] s[i].orders[m]).id)
}

proof fn lemma_push_facts(os1: Seq<Order>, o: Order)
    ensures
        forall|q: u64| q != o.price ==> sum_at(os1.push(o), q) == sum_at(os1, q),
        sum_at(os1.push(o), o.price) == sum_at(os1, o.price) + o.size,
        forall|q: u64| some_at(os1, q) ==> some_at(os1.push(o), q),
        forall|id: u64| some_id(os1, id) ==> some_id(os1.push(o), id),
        some_at(os1.push(o), o.price),
        some_id(os1.push(o), o.id),
{
    let os = os1.push(o);
    assert(os.drop_last() =~= os1);
    assert forall|q: u64| some_at(os1, q) implies some_at(os, q) by {
        let j = choose|j: int| 0 <= j < os1.len() && os1[j].price == q;
        assert(os[j] == os1[j]);
    }
    assert forall|id: u64| some_id(os1, id) implies some_id(os, id) by {
        let j = choose|j: int| 0 <= j < os1.len() && os1[j].id == id;
        assert(os[j] == os1[j]);
    }
    assert(os[os1.len() as int] == o);
}

#[verifier::rlimit(80)]
proof fn lemma_step_into_level(s: Seq<LevelView>, side: Side, os1: Seq<Order>, o: Order)
    requires
        built(s, side, os1),
        !some_id(os1, o.id),
        ahead(s, side, o.price, false) < s.len(),
        s[ahead(s, side, o.price, false) as int].price == o.price,
    ensures
        built(side_add(s, side, o), side, os1.push(o)),
{
    let os = os1.push(o);
    let p = o.price;
    let t = side_add(s, side, o);
    let k = ahead(s, side, p, false) as int;
    lemma_push_facts(os1, o);
    lemma_side_add_ok(s, side, o);
    lemma_ahead_bounds(s, side, p, false);
    let lk = s[k];
    if has_id(lk.orders, o.id) {
        let m = choose|m: int| 0 <= m < lk.orders.len() && lk.orders[m].id == o.id;
        assert(some_id(os1, s[k].orders[m].id));
    }
    lemma_has_id(lk.orders, o.id);
    lemma_with_order(lk.orders, o, p);
    assert forall|i: int| 0 <= i < t.len() && i != k implies (#[trigger] t[i]) == s[i] && s[i].price
        != p by {
        if i < k {
            assert(in_front(side, s[i].price, p, false));
        } else {
            assert(better(side, s[k].price, s[i].price));
        }
    }
    assert forall|i: int| 0 <= i < t.len() implies total((#[trigger] t[i]).orders) == sum_at(
        os,
        t[i].price,
    ) by {}
    assert forall|i: int| 0 <= i < t.len() implies some_at(os, (#[trigger] t[i]).price) by {
        if i != k {
            assert(some_at(os1, s[i].price));
        }
    }
    assert forall|j: int| 0 <= j < os.len() implies has_price(t, (#[trigger] os[j]).price) by {
        if j < os1.len() {
            assert(os[j] == os1[j]);
            assert(has_price(s, os1[j].price));
            let i = choose|i: int| 0 <= i < s.len() && s[i].price == os1[j].price;
            assert(t[i].price == s[i].price);
        } else {
            assert(t[k].price == p);
        }
    }
    assert forall|i: int, m: int| 0 <= i < t.len() && 0 <= m < t[i].orders.len() implies some_id(
        os,
        (#[trigger] t[i].orders[m]).id,
    ) by {
        if i != k {
            assert(some_id(os1, s[i].orders[m].id));
        } else {
            lemma_with_order_ids(lk.orders, o, m);
            if t[i].orders[m].id != o.id {
                let q = choose|q: int| 0 <= q < lk.orders.len() && lk.orders[q].id == t[i].orders[m].id;
                assert(some_id(os1, s[k].orders[q].id));
            }
        }
    }
}

proof fn lemma_new_level_totals(s: Seq<LevelView>, k: int, os1: Seq<Order>, o: Order)
    requires
        0 <= k <= s.len(),
        forall|i: int| 0 <= i < s.len() ==> total((#[trigger] s[i]).orders) == sum_at(os1, s[i].price),
        forall|i: int| 0 <= i < s.len() ==> (#[trigger] s[i]).price != o.price,
        sum_at(os1, o.price) == 0,
    ensures
        forall|i: int|
            0 <= i < s.len() + 1 ==> total(
                (#[trigger] s.insert(k, LevelView { price: o.price, orders: seq![o] })[i]).orders,
            ) == sum_at(os1.push(o), s.insert(k, LevelView { price: o.price, orders: seq![o] })[i].price),
{
    let t = s.insert(k, LevelView { price: o.price, orders: seq![o] });
    lemma_push_facts(os1, o);
    assert(total(t[k].orders) == o.size) by {
        assert(t[k].orders =~= seq![o]);
        assert(seq![o].drop_last() =~= Seq::<Order>::empty());
        reveal_with_fuel(total, 2);
    }
    assert forall|i: int| 0 <= i < t.len() implies total((#[trigger] t[i]).orders) == sum_at(
        os1.push(o),
        t[i].price,
    ) by {
        if i < k {
            assert(t[i] == s[i]);
        } else if i > k {
            assert(t[i] == s[i - 1]);
        }
    }
}

proof fn lemma_new_level_prices(s: Seq<LevelView>, k: int, os1: Seq<Order>, o: Order)
    requires
        0 <= k <= s.len(),
        forall|i: int| 0 <= i < s.len() ==> some_at(os1, (#[trigger] s[i]).price),
        forall|j: int| 0 <= j < os1.len() ==> has_price(s, (#[trigger] os1[j]).price),
    ensures
        forall|i: int|
            0 <= i < s.len() + 1 ==> some_at(
                os1.push(o),
                (#[trigger] s.insert(k, LevelView { price: o.price, orders: seq![o] })[i]).price,
            ),
        forall|j: int|
            0 <= j < os1.len() + 1 ==> has_price(
                s.insert(k, LevelView { price: o.price, orders: seq![o] }),
                (#[trigger] os1.push(o)[j]).price,
            ),
{
    let t = s.insert(k, LevelView { price: o.price, orders: seq![o] });
    let os = os1.push(o);
    lemma_push_facts(os1, o);
    assert forall|i: int| 0 <= i < t.len() implies some_at(os, (#[trigger] t[i]).price) by {
        if i < k {
            assert(some_at(os1, s[i].price));
        } else if i > k {
            assert(t[i] == s[i - 1]);
            assert(some_at(os1, s[i - 1].price));
        }
    }
    assert forall|j: int| 0 <= j < os.len() implies has_price(t, (#[trigger] os[j]).price) by {
        if j < os1.len() {
            assert(os[j] == os1[j]);
            assert(has_price(s, os1[j].price));
            let i = choose|i: int| 0 <= i < s.len() && s[i].price == os1[j].price;
            if i < k {
                assert(t[i] == s[i]);
            } else {
                assert(t[i + 1] == s[i]);
            }
        } else {
            assert(t[k].price == o.price);
        }
    }
}

proof fn lemma_new_level_ids(s: Seq<LevelView>, k: int, os1: Seq<Order>, o: Order)
    requires
        0 <= k <= s.len(),
        forall|i: int, m: int|
            0 <= i < s.len() && 0 <= m < s[i].orders.len() ==> some_id(
                os1,
                (#[trigger] s[i].orders[m]).id,
            ),
    ensures
        forall|i: int, m: int|
            0 <= i < s.len() + 1 && 0 <= m < s.insert(
                k,
                LevelView { price: o.price, orders: seq![o] },
            )[i].orders.len() ==> some_id(
                os1.push(o),
                (#[trigger] s.insert(k, LevelView { price: o.price, orders: seq![o] })[i].orders[m]).id,
            ),
{
    let t = s.insert(k, LevelView { price: o.price, orders: seq![o] });
    let os = os1.push(o);
    lemma_push_facts(os1, o);
    assert forall|i: int, m: int| 0 <= i < t.len() && 0 <= m < t[i].orders.len() implies some_id(
        os,
        (#[trigger] t[i].orders[m]).id,
    ) by {
        if i < k {
            assert(t[i] == s[i]);
            assert(some_id(os1, s[i].orders[m].id));
        } else if i > k {
            assert(t[i] == s[i - 1]);
            assert(some_id(os1, s[i - 1].orders[m].id));
        } else {
            assert(t[k].orders =~= seq![o]);
        }
    }
}

proof fn lemma_step_new_level(s: Seq<LevelView>, side: Side, os1: Seq<Order>, o: Order)
    requires
        built(s, side, os1),
        !(ahead(s, side, o.price, false) < s.len() && s[ahead(s, side, o.price, false) as int].price
            == o.price),
    ensures
        built(side_add(s, side, o), side, os1.push(o)),
{
    let p = o.price;
    let k = ahead(s, side, p, false) as int;
    lemma_side_add_ok(s, side, o);
    lemma_ahead_bounds(s, side, p, false);
    assert forall|i: int| 0 <= i < s.len() implies (#[trigger] s[i]).price != p by {
        if i < k {
            assert(in_front(side, s[i].price, p, false));
        } else if i > k {
            assert(better(side, s[k].price, s[i].price));
        }
    }
    if some_at(os1, p) {
        let j = choose|j: int| 0 <= j < os1.len() && os1[j].price == p;
        assert(has_price(s, os1[j].price));
    }
    lemma_sum_at_none(os1, p);
    lemma_new_level_totals(s, k, os1, o);
    lemma_new_level_prices(s, k, os1, o);
    lemma_new_level_ids(s, k, os1, o);
}

/// Creating orders of distinct ids on one side of an empty book builds
/// that side from them, and leaves the other side empty.
proof fn lemma_creates(side: Side, os: Seq<Order>)
    requires
        forall|i: int| 0 <= i < os.len() ==> (#[trigger] os[i]).side == side,
        forall|i: int, j: int| 0 <= i < j < os.len() ==> (#[trigger] os[i]).id != (#[trigger] os[j]).id,
    ensures
        built(side_levels(created_all(empty_book(), os), side), side, os),
        side_levels(created_all(empty_book(), os), opposite(side)).len() == 0,
    decreases os.len(),
{
    if os.len() == 0 {
        assert(side_levels(empty_book(), side) =~= Seq::<LevelView>::empty());
        assert(side_levels(empty_book(), opposite(side)) =~= Seq::<LevelView>::empty());
    } else {
        let os1 = os.drop_last();
        let o = os.last();
        assert(os1.push(o) =~= os);
        assert forall|i: int, j: int| 0 <= i < j < os1.len() implies (#[trigger] os1[i]).id
            != (#[trigger] os1[j]).id by {
            assert(os1[i] == os[i] && os1[j] == os[j]);
        }
        assert forall|i: int| 0 <= i < os1.len() implies (#[trigger] os1[i]).side == side by {
            assert(os1[i] == os[i]);
        }
        lemma_creates(side, os1);
        if some_id(os1, o.id) {
            let j = choose|j: int| 0 <= j < os1.len() && os1[j].id == o.id;
            assert(os[j] == os1[j]);
        }
        let v = created_all(empty_book(), os1);
        let s = side_levels(v, side);
        let w = created_all(empty_book(), os);
        assert(w == created(v, o));
        assert(o.side == side) by {
            assert(os[os.len() - 1] == o);
        }
        assert(side_levels(w, side) == side_add(s, side, o));
        assert(side_levels(v, opposite(side)) =~= Seq::<LevelView>::empty());
        assert(side_levels(w, opposite(side)) == sweep(
            side_levels(v, opposite(side)),
            opposite(side),
            o.price,
        ));
        let k = ahead(s, side, o.price, false) as int;
        if k < s.len() && s[k].price == o.price {
            lemma_step_into_level(s, side, os1, o);
        } else {
            lemma_step_new_level(s, side, os1, o);
        }
    }
}

/// Creating orders of distinct ids on one side of an empty book, at prices
/// interleaved in any way, gives exactly one level per distinct price, with
/// an aggregate size equal to the sum of the sizes created at that price.
pub proof fn law_creates_aggregate(side: Side, os: Seq<Order>)
    requires
        forall|i: int| 0 <= i < os.len() ==> (#[trigger] os[i]).side == side,
        forall|i: int, j: int| 0 <= i < j < os.len() ==> (#[trigger] os[i]).id != (#[trigger] os[j]).id,
    ensures
        level_prices(side_levels(created_all(empty_book(), os), side)) == prices(os),
        side_levels(created_all(empty_book(), os), side).len() == prices(os).len(),
        forall|i: int|
            0 <= i < side_levels(created_all(empty_book(), os), side).len() ==> total(
                (#[trigger] side_levels(created_all(empty_book(), os), side)[i]).orders,
            ) == sum_at(os, side_levels(created_all(empty_book(), os), side)[i].price),
        side_levels(created_all(empty_book(), os), opposite(side)).len() == 0,
{
    lemma_creates(side, os);
    let t = side_levels(created_all(empty_book(), os), side);
    let tp = t.map_values(|l: LevelView| l.price);
    let op = os.map_values(|o: Order| o.price);
    assert forall|q: u64| tp.to_set().contains(q) <==> op.to_set().contains(q) by {
        if tp.contains(q) {
            let i = choose|i: int| 0 <= i < tp.len() && tp[i] == q;
            assert(some_at(os, t[i].price));
            let j = choose|j: int| 0 <= j < os.len() && os[j].price == q;
            assert(op[j] == q);
        }
        if op.contains(q) {
            let j = choose|j: int| 0 <= j < op.len() && op[j] == q;
            assert(has_price(t, os[j].price));
            let i = choose|i: int| 0 <= i < t.len() && t[i].price == q;
            assert(tp[i] == q);
        }
    }
    assert(level_prices(t) =~= prices(os));
    assert(tp.no_duplicates()) by {
        assert forall|i: int, j: int| 0 <= i < tp.len() && 0 <= j < tp.len() && i != j implies tp[i]
            != tp[j] by {
            if i < j {
                assert(better(side, t[i].price, t[j].price));
            } else {
                assert(better(side, t[j].price, t[i].price));
            }
        }
    }
    tp.unique_seq_to_set();
}

} // verus!
