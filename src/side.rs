use vstd::prelude::*;

use crate::level::{
    has_id, ids_increasing, lemma_has_id, lemma_with_order, lemma_without_id, with_order,
    without_id, LevelView, Order, PriceLevel, Side,
};

verus! {

/// Price `a` comes before price `b` on this side: higher first for bids,
/// lower first for asks.
pub open spec fn better(side: Side, a: u64, b: u64) -> bool {
    match side {
        Side::Buy => a > b,
        Side::Sell => a < b,
    }
}

/// Price `a` comes before `price`, or (when `inclusive`) equals it.
pub open spec fn in_front(side: Side, a: u64, price: u64, inclusive: bool) -> bool {
    better(side, a, price) || (inclusive && a == price)
}

/// The other side of the book.
pub open spec fn opposite(side: Side) -> Side {
    match side {
        Side::Buy => Side::Sell,
        Side::Sell => Side::Buy,
    }
}

/// What a side's levels stand for.
pub open spec fn levels_view(v: Seq<PriceLevel>) -> Seq<LevelView> {
    v.map_values(|l: PriceLevel| l@)
}

/// A level holds at least one order, in id order, all at its price.
pub open spec fn level_ok(l: LevelView) -> bool {
    &&& l.orders.len() > 0
    &&& ids_increasing(l.orders)
    &&& forall|i: int| 0 <= i < l.orders.len() ==> (#[trigger] l.orders[i]).price == l.price
}

/// Prices strictly monotonic in the side's order.
pub open spec fn side_sorted(s: Seq<LevelView>, side: Side) -> bool {
    forall|i: int, j: int| 0 <= i < j < s.len() ==> better(side, s[i].price, s[j].price)
}

/// A well-formed side: strictly sorted, with no empty or malformed level.
pub open spec fn side_ok(s: Seq<LevelView>, side: Side) -> bool {
    &&& side_sorted(s, side)
    &&& forall|i: int| 0 <= i < s.len() ==> level_ok(#[trigger] s[i])
}

/// A side's levels are well formed, with aggregate sizes that match.
pub open spec fn side_wf(v: Seq<PriceLevel>, side: Side) -> bool {
    &&& forall|i: int| 0 <= i < v.len() ==> (#[trigger] v[i]).wf()
    &&& side_ok(levels_view(v), side)
}

/// Number of leading levels whose price is in front of `price`.
pub open spec fn ahead(s: Seq<LevelView>, side: Side, price: u64, inclusive: bool) -> nat
    decreases s.len(),
{
    if s.len() == 0 {
        0
    } else if in_front(side, s[0].price, price, inclusive) {
        1 + ahead(s.drop_first(), side, price, inclusive)
    } else {
        0
    }
}

/// The side after an order is added: into the level at its price, or into
/// a new level at its sorted place.
pub open spec fn side_add(s: Seq<LevelView>, side: Side, o: Order) -> Seq<LevelView> {
    let k = ahead(s, side, o.price, false) as int;
    if k < s.len() && s[k].price == o.price {
        s.update(k, LevelView { price: o.price, orders: with_order(s[k].orders, o) })
    } else {
        s.insert(k, LevelView { price: o.price, orders: seq![o] })
    }
}

/// The side without its leading levels at `price` or in front of it.
pub open spec fn sweep(s: Seq<LevelView>, side: Side, price: u64) -> Seq<LevelView> {
    s.skip(ahead(s, side, price, true) as int)
}

/// The side with the order of this id taken out of level `k`, and that
/// level evicted if it is left empty.
pub open spec fn drop_order_at(s: Seq<LevelView>, k: int, id: u64) -> Seq<LevelView> {
    let rest = without_id(s[k].orders, id);
    if rest.len() == 0 {
        s.remove(k)
    } else {
        s.update(k, LevelView { price: s[k].price, orders: rest })
    }
}

/// The side after deleting order `id` at `price`; unchanged where no level
/// has that price.
pub open spec fn side_remove(s: Seq<LevelView>, side: Side, price: u64, id: u64) -> Seq<
    LevelView,
> {
    let k = ahead(s, side, price, false) as int;
    if k < s.len() && s[k].price == price {
        drop_order_at(s, k, id)
    } else {
        s
    }
}

/// Index of the first level that holds an order of this id (the length of
/// `s` where none does).
pub open spec fn holding(s: Seq<LevelView>, id: u64) -> nat
    decreases s.len(),
{
    if s.len() == 0 {
        0
    } else if has_id(s[0].orders, id) {
        0
    } else {
        1 + holding(s.drop_first(), id)
    }
}

/// The side after deleting order `id` wherever it rests.
pub open spec fn side_remove_any(s: Seq<LevelView>, id: u64) -> Seq<LevelView> {
    let k = holding(s, id) as int;
    if k < s.len() {
        drop_order_at(s, k, id)
    } else {
        s
    }
}

/// `ahead` is the index that splits the levels in front of `price` from
/// the rest.
pub proof fn lemma_ahead_is(s: Seq<LevelView>, side: Side, price: u64, inclusive: bool, k: int)
    requires
        0 <= k <= s.len(),
        forall|j: int| 0 <= j < k ==> in_front(side, #[trigger] s[j].price, price, inclusive),
        k < s.len() ==> !in_front(side, s[k].price, price, inclusive),
    ensures
        ahead(s, side, price, inclusive) == k,
    decreases s.len(),
{
    if s.len() > 0 && k > 0 {
        assert forall|j: int| 0 <= j < k - 1 implies in_front(
            side,
            #[trigger] s.drop_first()[j].price,
            price,
            inclusive,
        ) by {
            assert(s.drop_first()[j] == s[j + 1]);
        }
        lemma_ahead_is(s.drop_first(), side, price, inclusive, k - 1);
    }
}

/// The levels before `ahead` are in front of `price`; the one at it is not.
pub proof fn lemma_ahead_bounds(s: Seq<LevelView>, side: Side, price: u64, inclusive: bool)
    ensures
        ahead(s, side, price, inclusive) <= s.len(),
        forall|j: int|
            0 <= j < ahead(s, side, price, inclusive) ==> in_front(
                side,
                #[trigger] s[j].price,
                price,
                inclusive,
            ),
        ahead(s, side, price, inclusive) < s.len() ==> !in_front(
            side,
            s[ahead(s, side, price, inclusive) as int].price,
            price,
            inclusive,
        ),
    decreases s.len(),
{
    if s.len() > 0 && in_front(side, s[0].price, price, inclusive) {
        lemma_ahead_bounds(s.drop_first(), side, price, inclusive);
        assert forall|j: int| 0 <= j < ahead(s, side, price, inclusive) implies in_front(
            side,
            #[trigger] s[j].price,
            price,
            inclusive,
        ) by {
            if j > 0 {
                assert(s[j] == s.drop_first()[j - 1]);
            }
        }
    }
}

/// No level before `holding` has the id; the one at it does.
pub proof fn lemma_holding_bounds(s: Seq<LevelView>, id: u64)
    ensures
        holding(s, id) <= s.len(),
        forall|j: int| 0 <= j < holding(s, id) ==> !has_id(#[trigger] s[j].orders, id),
        holding(s, id) < s.len() ==> has_id(s[holding(s, id) as int].orders, id),
    decreases s.len(),
{
    if s.len() > 0 && !has_id(s[0].orders, id) {
        lemma_holding_bounds(s.drop_first(), id);
        assert forall|j: int| 0 <= j < holding(s, id) implies !has_id(
            #[trigger] s[j].orders,
            id,
        ) by {
            if j > 0 {
                assert(s[j] == s.drop_first()[j - 1]);
            }
        }
    }
}

/// `holding` is the first index whose level has the id.
pub proof fn lemma_holding_is(s: Seq<LevelView>, id: u64, k: int)
    requires
        0 <= k <= s.len(),
        forall|j: int| 0 <= j < k ==> !has_id(#[trigger] s[j].orders, id),
        k < s.len() ==> has_id(s[k].orders, id),
    ensures
        holding(s, id) == k,
    decreases s.len(),
{
    if s.len() > 0 && k > 0 {
        assert forall|j: int| 0 <= j < k - 1 implies !has_id(
            #[trigger] s.drop_first()[j].orders,
            id,
        ) by {
            assert(s.drop_first()[j] == s[j + 1]);
        }
        lemma_holding_is(s.drop_first(), id, k - 1);
    }
}

/// Whether price `a` comes before `price` on this side (or equals it, when
/// `inclusive`).
pub fn is_in_front(side: Side, a: u64, price: u64, inclusive: bool) -> (r: bool)
    ensures
        r == in_front(side, a, price, inclusive),
{
    match side {
        Side::Buy => a > price || (inclusive && a == price),
        Side::Sell => a < price || (inclusive && a == price),
    }
}

/// Number of leading levels in front of `price` (binary search).
pub fn locate(levels: &Vec<PriceLevel>, side: Side, price: u64, inclusive: bool) -> (r: usize)
    requires
        side_sorted(levels_view(levels@), side),
    ensures
        r == ahead(levels_view(levels@), side, price, inclusive),
{
    let ghost s = levels_view(levels@);
    let mut lo: usize = 0;
    let mut hi: usize = levels.len();
    while lo < hi
        invariant
            0 <= lo <= hi <= levels@.len(),
            s == levels_view(levels@),
            side_sorted(s, side),
            forall|j: int| 0 <= j < lo ==> in_front(side, #[trigger] s[j].price, price, inclusive),
            forall|j: int|
                hi <= j < levels@.len() ==> !in_front(side, #[trigger] s[j].price, price, inclusive),
        decreases hi - lo,
    {
        let mid = lo + (hi - lo) / 2;
        assert(s[mid as int] == levels@[mid as int]@);
        if is_in_front(side, levels[mid].price, price, inclusive) {
            assert forall|j: int| 0 <= j <= mid implies in_front(
                side,
                #[trigger] s[j].price,
                price,
                inclusive,
            ) by {
                if j < mid {
                    assert(better(side, s[j].price, s[mid as int].price));
                }
            }
            lo = mid + 1;
        } else {
            assert forall|j: int| mid <= j < levels@.len() implies !in_front(
                side,
                #[trigger] s[j].price,
                price,
                inclusive,
            ) by {
                if j > mid {
                    assert(better(side, s[mid as int].price, s[j].price));
                }
            }
            hi = mid;
        }
    }
    proof {
        lemma_ahead_is(s, side, price, inclusive, lo as int);
    }
    lo
}

/// Adding an order keeps a side well formed.
pub proof fn lemma_side_add_ok(s: Seq<LevelView>, side: Side, o: Order)
    requires
        side_ok(s, side),
    ensures
        side_ok(side_add(s, side, o), side),
{
    lemma_ahead_bounds(s, side, o.price, false);
    let k = ahead(s, side, o.price, false) as int;
    let t = side_add(s, side, o);
    if k < s.len() && s[k].price == o.price {
        lemma_with_order(s[k].orders, o, o.price);
        assert forall|i: int| 0 <= i < t.len() implies level_ok(#[trigger] t[i]) by {
            if i != k {
                assert(t[i] == s[i]);
            }
        }
        assert forall|i: int, j: int| 0 <= i < j < t.len() implies better(
            side,
            t[i].price,
            t[j].price,
        ) by {
            assert(t[i].price == s[i].price);
            assert(t[j].price == s[j].price);
        }
    } else {
        assert forall|i: int| 0 <= i < t.len() implies level_ok(#[trigger] t[i]) by {
            if i < k {
                assert(t[i] == s[i]);
            } else if i > k {
                assert(t[i] == s[i - 1]);
            } else {
                assert(t[i].orders =~= seq![o]);
            }
        }
        assert forall|i: int, j: int| 0 <= i < j < t.len() implies better(
            side,
            t[i].price,
            t[j].price,
        ) by {
            if j < k {
            } else if i < k && j == k {
                assert(in_front(side, s[i].price, o.price, false));
            } else if i < k {
                assert(t[j] == s[j - 1]);
                assert(in_front(side, s[i].price, o.price, false));
                assert(!in_front(side, s[k].price, o.price, false));
                if j - 1 > k {
                    assert(better(side, s[k].price, s[j - 1].price));
                }
            } else if i == k {
                assert(t[j] == s[j - 1]);
                assert(!in_front(side, s[k].price, o.price, false));
                if j - 1 > k {
                    assert(better(side, s[k].price, s[j - 1].price));
                }
            } else {
                assert(t[j] == s[j - 1]);
                assert(t[i] == s[i - 1]);
            }
        }
    }
}

/// Adds an order to one side: into the level at its price, or as a new
/// level at its sorted place.
pub fn add_to_side(levels: &mut Vec<PriceLevel>, side: Side, o: Order)
    requires
        side_wf(old(levels)@, side),
    ensures
        side_wf(final(levels)@, side),
        levels_view(final(levels)@) == side_add(levels_view(old(levels)@), side, o),
{
    let ghost s = levels_view(levels@);
    let k = locate(levels, side, o.price, false);
    proof {
        lemma_ahead_bounds(s, side, o.price, false);
        lemma_side_add_ok(s, side, o);
    }
    if k < levels.len() && levels[k].price == o.price {
        let mut lvl = levels.remove(k);
        proof {
            assert(s[k as int] == lvl@);
        }
        lvl.insert_order(o);
        levels.insert(k, lvl);
        proof {
            assert(levels_view(levels@) =~= side_add(s, side, o));
            assert forall|i: int| 0 <= i < levels@.len() implies (#[trigger] levels@[i]).wf() by {
                if i != k {
                    assert(levels@[i] == old(levels)@[i]);
                }
            }
        }
    } else {
        let lvl = PriceLevel::new(o);
        levels.insert(k, lvl);
        proof {
            assert(levels_view(levels@) =~= side_add(s, side, o));
            assert forall|i: int| 0 <= i < levels@.len() implies (#[trigger] levels@[i]).wf() by {
                if i < k {
                    assert(levels@[i] == old(levels)@[i]);
                } else if i > k {
                    assert(levels@[i] == old(levels)@[i - 1]);
                }
            }
        }
    }
}

/// Removes the leading levels of a side at `price` or in front of it.
pub fn sweep_side(levels: &mut Vec<PriceLevel>, side: Side, price: u64)
    requires
        side_wf(old(levels)@, side),
    ensures
        side_wf(final(levels)@, side),
        levels_view(final(levels)@) == sweep(levels_view(old(levels)@), side, price),
        final(levels)@ == old(levels)@.skip(ahead(levels_view(old(levels)@), side, price, true) as int),
{
    let ghost s = levels_view(levels@);
    let k = locate(levels, side, price, true);
    proof {
        lemma_ahead_bounds(s, side, price, true);
    }
    let rest = levels.split_off(k);
    *levels = rest;
    proof {
        let t = sweep(s, side, price);
        assert(levels_view(levels@) =~= t);
        assert forall|i: int| 0 <= i < levels@.len() implies (#[trigger] levels@[i]).wf() by {
            assert(levels@[i] == old(levels)@[i + k]);
        }
        assert forall|i: int| 0 <= i < t.len() implies level_ok(#[trigger] t[i]) by {
            assert(t[i] == s[i + k]);
        }
        assert forall|i: int, j: int| 0 <= i < j < t.len() implies better(
            side,
            t[i].price,
            t[j].price,
        ) by {
            assert(t[i] == s[i + k]);
            assert(t[j] == s[j + k]);
        }
    }
}

/// Takes the order of this id out of level `k`, evicting the level if it is
/// left empty. Returns whether the level held such an order.
fn drop_order(levels: &mut Vec<PriceLevel>, side: Side, k: usize, id: u64) -> (r: bool)
    requires
        side_wf(old(levels)@, side),
        k < old(levels)@.len(),
    ensures
        side_wf(final(levels)@, side),
        levels_view(final(levels)@) == drop_order_at(levels_view(old(levels)@), k as int, id),
        r == has_id(levels_view(old(levels)@)[k as int].orders, id),
{
    let ghost s = levels_view(levels@);
    let mut lvl = levels.remove(k);
    proof {
        assert(s[k as int] == lvl@);
        lemma_without_id(lvl.orders@, id, lvl.price);
        lemma_has_id(lvl.orders@, id);
    }
    let removed = lvl.remove_order(id);
    if lvl.is_empty() {
        proof {
            let t = drop_order_at(s, k as int, id);
            assert(levels_view(levels@) =~= t);
            assert forall|i: int| 0 <= i < levels@.len() implies (#[trigger] levels@[i]).wf() by {
                if i < k {
                    assert(levels@[i] == old(levels)@[i]);
                } else {
                    assert(levels@[i] == old(levels)@[i + 1]);
                }
            }
            assert forall|i: int| 0 <= i < t.len() implies level_ok(#[trigger] t[i]) by {
                if i < k {
                    assert(t[i] == s[i]);
                } else {
                    assert(t[i] == s[i + 1]);
                }
            }
            assert forall|i: int, j: int| 0 <= i < j < t.len() implies better(
                side,
                t[i].price,
                t[j].price,
            ) by {
                if j < k {
                } else if i < k {
                    assert(t[j] == s[j + 1]);
                } else {
                    assert(t[j] == s[j + 1]);
                    assert(t[i] == s[i + 1]);
                }
            }
        }
    } else {
        levels.insert(k, lvl);
        proof {
            let t = drop_order_at(s, k as int, id);
            assert(levels_view(levels@) =~= t);
            assert forall|i: int| 0 <= i < levels@.len() implies (#[trigger] levels@[i]).wf() by {
                if i != k {
                    assert(levels@[i] == old(levels)@[i]);
                }
            }
            assert forall|i: int| 0 <= i < t.len() implies level_ok(#[trigger] t[i]) by {
                if i != k {
                    assert(t[i] == s[i]);
                }
            }
            assert forall|i: int, j: int| 0 <= i < j < t.len() implies better(
                side,
                t[i].price,
                t[j].price,
            ) by {
                assert(t[i].price == s[i].price);
                assert(t[j].price == s[j].price);
            }
        }
    }
    removed.is_some()
}

/// Deletes order `id` from the level at `price`. Returns whether it was
/// there; the side is unchanged where it was not.
pub fn remove_from_side(levels: &mut Vec<PriceLevel>, side: Side, price: u64, id: u64) -> (r:
    bool)
    requires
        side_wf(old(levels)@, side),
    ensures
        side_wf(final(levels)@, side),
        levels_view(final(levels)@) == side_remove(levels_view(old(levels)@), side, price, id),
        r == ({
            let s = levels_view(old(levels)@);
            let k = ahead(s, side, price, false) as int;
            k < s.len() && s[k].price == price && has_id(s[k].orders, id)
        }),
{
    let ghost s = levels_view(levels@);
    let k = locate(levels, side, price, false);
    proof {
        lemma_ahead_bounds(s, side, price, false);
    }
    if k < levels.len() && levels[k].price == price {
        proof {
            assert(s[k as int] == levels@[k as int]@);
        }
        drop_order(levels, side, k, id)
    } else {
        false
    }
}

/// Deletes order `id` from the first level that holds it. Returns whether
/// one did; the side is unchanged where none did.
pub fn remove_anywhere(levels: &mut Vec<PriceLevel>, side: Side, id: u64) -> (r: bool)
    requires
        side_wf(old(levels)@, side),
    ensures
        side_wf(final(levels)@, side),
        levels_view(final(levels)@) == side_remove_any(levels_view(old(levels)@), id),
        r == (holding(levels_view(old(levels)@), id) < old(levels)@.len()),
{
    let ghost s = levels_view(levels@);
    let mut k: usize = 0;
    while k < levels.len()
        invariant
            0 <= k <= levels@.len(),
            levels@ == old(levels)@,
            s == levels_view(levels@),
            side_wf(levels@, side),
            forall|j: int| 0 <= j < k ==> !has_id(#[trigger] s[j].orders, id),
        decreases levels@.len() - k,
    {
        proof {
            assert(s[k as int] == levels@[k as int]@);
            lemma_has_id(levels@[k as int].orders@, id);
        }
        if levels[k].order_size(id).is_some() {
            proof {
                lemma_holding_is(s, id, k as int);
            }
            return drop_order(levels, side, k, id);
        }
        k = k + 1;
    }
    proof {
        lemma_holding_is(s, id, k as int);
    }
    false
}

} // verus!
