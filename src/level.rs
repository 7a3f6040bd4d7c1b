use vstd::prelude::*;

verus! {

/// Direction of an order.
#[derive(Clone, Copy, Debug, PartialEq, Eq, Structural)]
pub enum Side {
    Buy,
    Sell,
}

/// A resting order: price in ticks, size in units.
#[derive(Clone, Copy, Debug, PartialEq, Eq, Structural)]
pub struct Order {
    pub id: u64,
    pub side: Side,
    pub price: u64,
    pub size: u64,
}

/// Sum of the sizes of a sequence of orders.
pub open spec fn total(s: Seq<Order>) -> int
    decreases s.len(),
{
    if s.len() == 0 {
        0
    } else {
        total(s.drop_last()) + s.last().size
    }
}

/// The orders are strictly increasing by id.
pub open spec fn ids_increasing(s: Seq<Order>) -> bool {
    forall|i: int, j: int| 0 <= i < j < s.len() ==> s[i].id < s[j].id
}

/// Number of leading orders whose id is below `id`: where an order with
/// that id stands, or would be put.
pub open spec fn ids_below(s: Seq<Order>, id: u64) -> nat
    decreases s.len(),
{
    if s.len() == 0 {
        0
    } else if s[0].id < id {
        1 + ids_below(s.drop_first(), id)
    } else {
        0
    }
}

/// Whether some order of `s` has this id.
pub open spec fn has_id(s: Seq<Order>, id: u64) -> bool {
    exists|i: int| 0 <= i < s.len() && s[i].id == id
}

/// The size of the order with this id, if there is one.
pub open spec fn size_of(s: Seq<Order>, id: u64) -> Option<u64> {
    let k = ids_below(s, id) as int;
    if k < s.len() && s[k].id == id {
        Some(s[k].size)
    } else {
        None
    }
}

/// `s` with `o` added in id order, replacing an order of the same id.
pub open spec fn with_order(s: Seq<Order>, o: Order) -> Seq<Order> {
    let k = ids_below(s, o.id) as int;
    if k < s.len() && s[k].id == o.id {
        s.update(k, o)
    } else {
        s.insert(k, o)
    }
}

/// `s` without the order of this id.
pub open spec fn without_id(s: Seq<Order>, id: u64) -> Seq<Order> {
    let k = ids_below(s, id) as int;
    if k < s.len() && s[k].id == id {
        s.remove(k)
    } else {
        s
    }
}

/// What a price level stands for: its price and its orders in id order.
pub struct LevelView {
    pub price: u64,
    pub orders: Seq<Order>,
}

/// All orders at one price on one side, with their aggregate size.
pub struct PriceLevel {
    pub price: u64,
    pub size: u128,
    pub orders: Vec<Order>,
}

impl View for PriceLevel {
    type V = LevelView;

    open spec fn view(&self) -> LevelView {
        LevelView { price: self.price, orders: self.orders@ }
    }
}

/// `ids_below` is the index that splits the ids below `id` from the rest.
pub proof fn lemma_ids_below_is(s: Seq<Order>, id: u64, k: int)
    requires
        0 <= k <= s.len(),
        forall|j: int| 0 <= j < k ==> s[j].id < id,
        k < s.len() ==> s[k].id >= id,
    ensures
        ids_below(s, id) == k,
    decreases s.len(),
{
    if s.len() > 0 && k > 0 {
        lemma_ids_below_is(s.drop_first(), id, k - 1);
    }
}

/// The orders before `ids_below` have smaller ids; the one at it does not.
pub proof fn lemma_ids_below_bounds(s: Seq<Order>, id: u64)
    ensures
        ids_below(s, id) <= s.len(),
        forall|j: int| 0 <= j < ids_below(s, id) ==> s[j].id < id,
        ids_below(s, id) < s.len() ==> s[ids_below(s, id) as int].id >= id,
    decreases s.len(),
{
    if s.len() > 0 && s[0].id < id {
        lemma_ids_below_bounds(s.drop_first(), id);
        assert forall|j: int| 0 <= j < ids_below(s, id) implies s[j].id < id by {
            if j > 0 {
                assert(s[j] == s.drop_first()[j - 1]);
            }
        }
    }
}

/// In an id-ordered sequence an order of that id, if any, stands where
/// `ids_below` points.
pub proof fn lemma_has_id(s: Seq<Order>, id: u64)
    requires
        ids_increasing(s),
    ensures
        has_id(s, id) <==> size_of(s, id) is Some,
{
    lemma_ids_below_bounds(s, id);
    let k = ids_below(s, id) as int;
    if has_id(s, id) {
        let i = choose|i: int| 0 <= i < s.len() && s[i].id == id;
        if i > k {
            assert(s[k].id < s[i].id);
        }
    }
    if size_of(s, id) is Some {
        assert(s[k].id == id);
    }
}

/// A sum of `u64` sizes is at most the count times the largest `u64`.
pub proof fn lemma_total_bound(s: Seq<Order>)
    ensures
        0 <= total(s) <= s.len() * 0xFFFF_FFFF_FFFF_FFFFint,
    decreases s.len(),
{
    if s.len() > 0 {
        lemma_total_bound(s.drop_last());
        let n = s.len() - 1;
        assert(n * 0xFFFF_FFFF_FFFF_FFFFint + 0xFFFF_FFFF_FFFF_FFFFint == (n + 1)
            * 0xFFFF_FFFF_FFFF_FFFFint) by (nonlinear_arith);
    }
}

/// Inserting an order adds its size to the sum.
pub proof fn lemma_total_insert(s: Seq<Order>, k: int, o: Order)
    requires
        0 <= k <= s.len(),
    ensures
        total(s.insert(k, o)) == total(s) + o.size,
    decreases s.len(),
{
    if k == s.len() {
        assert(s.insert(k, o).drop_last() =~= s);
    } else {
        lemma_total_insert(s.drop_last(), k, o);
        assert(s.insert(k, o).drop_last() =~= s.drop_last().insert(k, o));
    }
}

/// Removing an order takes its size from the sum.
pub proof fn lemma_total_remove(s: Seq<Order>, k: int)
    requires
        0 <= k < s.len(),
    ensures
        total(s.remove(k)) == total(s) - s[k].size,
    decreases s.len(),
{
    if k == s.len() - 1 {
        assert(s.remove(k) =~= s.drop_last());
    } else {
        lemma_total_remove(s.drop_last(), k);
        assert(s.remove(k).drop_last() =~= s.drop_last().remove(k));
    }
}

/// The sum over any sequence that a `Vec` can hold fits in a `u128`.
pub proof fn lemma_total_fits(s: Seq<Order>)
    requires
        s.len() <= usize::MAX,
    ensures
        0 <= total(s) <= u128::MAX,
{
    lemma_total_bound(s);
    let n = s.len() as int;
    assert(n <= 0xFFFF_FFFF_FFFF_FFFFint);
    assert(n * 0xFFFF_FFFF_FFFF_FFFFint <= 0xFFFF_FFFF_FFFF_FFFFint * 0xFFFF_FFFF_FFFF_FFFFint)
        by (nonlinear_arith)
        requires
            0 <= n <= 0xFFFF_FFFF_FFFF_FFFFint,
    ;
}

/// Adding an order keeps a level's orders in id order and at its price,
/// and changes their sum by the new size less any replaced one.
pub proof fn lemma_with_order(s: Seq<Order>, o: Order, price: u64)
    requires
        ids_increasing(s),
        forall|i: int| 0 <= i < s.len() ==> (#[trigger] s[i]).price == price,
        o.price == price,
    ensures
        ids_increasing(with_order(s, o)),
        forall|i: int|
            0 <= i < with_order(s, o).len() ==> (#[trigger] with_order(s, o)[i]).price == price,
        with_order(s, o).len() > 0,
        total(with_order(s, o)) == total(s) + o.size - match size_of(s, o.id) {
            Some(z) => z as int,
            None => 0,
        },
{
    lemma_ids_below_bounds(s, o.id);
    let k = ids_below(s, o.id) as int;
    if k < s.len() && s[k].id == o.id {
        lemma_total_remove(s, k);
        lemma_total_insert(s.remove(k), k, o);
        assert(s.remove(k).insert(k, o) =~= s.update(k, o));
    } else {
        lemma_total_insert(s, k, o);
        let t = s.insert(k, o);
        assert forall|i: int, j: int| 0 <= i < j < t.len() implies t[i].id < t[j].id by {
            if j < k {
            } else if i < k && j == k {
            } else if i < k {
                assert(t[j] == s[j - 1]);
            } else if i == k {
                assert(t[j] == s[j - 1]);
                assert(s[k].id <= s[j - 1].id);
            } else {
                assert(t[j] == s[j - 1]);
                assert(t[i] == s[i - 1]);
            }
        }
    }
}

/// Removing an order keeps a level's orders in id order and at its price,
/// and takes the removed size from their sum.
pub proof fn lemma_without_id(s: Seq<Order>, id: u64, price: u64)
    requires
        ids_increasing(s),
        forall|i: int| 0 <= i < s.len() ==> (#[trigger] s[i]).price == price,
    ensures
        ids_increasing(without_id(s, id)),
        forall|i: int|
            0 <= i < without_id(s, id).len() ==> (#[trigger] without_id(s, id)[i]).price == price,
        total(without_id(s, id)) == total(s) - match size_of(s, id) {
            Some(z) => z as int,
            None => 0,
        },
        without_id(s, id).len() == s.len() - if size_of(s, id) is Some { 1int } else { 0 },
{
    let k = ids_below(s, id) as int;
    lemma_ids_below_bounds(s, id);
    if k < s.len() && s[k].id == id {
        lemma_total_remove(s, k);
        let t = s.remove(k);
        assert forall|i: int, j: int| 0 <= i < j < t.len() implies t[i].id < t[j].id by {
            if j < k {
            } else if i < k {
                assert(t[j] == s[j + 1]);
            } else {
                assert(t[j] == s[j + 1]);
                assert(t[i] == s[i + 1]);
            }
        }
    }
}

impl PriceLevel {
    /// Orders in id order, all at the level's price, and the aggregate
    /// size their sum.
    pub open spec fn wf(&self) -> bool {
        &&& ids_increasing(self.orders@)
        &&& forall|i: int| 0 <= i < self.orders@.len() ==> (#[trigger] self.orders@[i]).price
            == self.price
        &&& self.size == total(self.orders@)
    }

    /// A level holding this one order.
    pub fn new(order: Order) -> (r: PriceLevel)
        ensures
            r.wf(),
            r@ == (LevelView { price: order.price, orders: seq![order] }),
    {
        let mut orders: Vec<Order> = Vec::new();
        orders.push(order);
        let r = PriceLevel { price: order.price, size: order.size as u128, orders };
        assert(r.orders@ =~= seq![order]);
        assert(r.orders@.drop_last() =~= Seq::<Order>::empty());
        assert(total(r.orders@) == order.size) by {
            reveal_with_fuel(total, 2);
        }
        r
    }

    /// Where an order of this id stands or would be put (binary search).
    pub fn position_of(&self, id: u64) -> (r: usize)
        requires
            ids_increasing(self.orders@),
        ensures
            r == ids_below(self.orders@, id),
    {
        let mut lo: usize = 0;
        let mut hi: usize = self.orders.len();
        while lo < hi
            invariant
                0 <= lo <= hi <= self.orders@.len(),
                ids_increasing(self.orders@),
                forall|j: int| 0 <= j < lo ==> self.orders@[j].id < id,
                forall|j: int| hi <= j < self.orders@.len() ==> self.orders@[j].id >= id,
            decreases hi - lo,
        {
            let mid = lo + (hi - lo) / 2;
            if self.orders[mid].id < id {
                lo = mid + 1;
            } else {
                hi = mid;
            }
        }
        proof {
            lemma_ids_below_is(self.orders@, id, lo as int);
        }
        lo
    }

    /// The size of the order with this id, if the level holds one.
    pub fn order_size(&self, id: u64) -> (r: Option<u64>)
        requires
            self.wf(),
        ensures
            r == size_of(self.orders@, id),
    {
        let k = self.position_of(id);
        if k < self.orders.len() && self.orders[k].id == id {
            Some(self.orders[k].size)
        } else {
            None
        }
    }

    /// Adds an order (replacing one of the same id) and adjusts the
    /// aggregate size.
    pub fn insert_order(&mut self, order: Order)
        requires
            old(self).wf(),
            order.price == old(self).price,
        ensures
            final(self).wf(),
            final(self)@ == (LevelView {
                price: old(self).price,
                orders: with_order(old(self).orders@, order),
            }),
    {
        let ghost s0 = self.orders@;
        proof {
            lemma_with_order(s0, order, self.price);
            lemma_ids_below_bounds(s0, order.id);
        }
        let k = self.position_of(order.id);
        if k < self.orders.len() && self.orders[k].id == order.id {
            let replaced = self.orders[k].size;
            proof {
                lemma_total_remove(s0, k as int);
                lemma_total_bound(s0.remove(k as int));
            }
            self.orders.set(k, order);
            self.size = self.size - replaced as u128;
        } else {
            self.orders.insert(k, order);
        }
        proof {
            assert(self.orders.len() == self.orders@.len());
            lemma_total_fits(self.orders@);
        }
        self.size = self.size + order.size as u128;
    }

    /// Removes the order of this id and returns its size, or `None` where
    /// the level holds no such order (left unchanged).
    pub fn remove_order(&mut self, id: u64) -> (r: Option<u64>)
        requires
            old(self).wf(),
        ensures
            final(self).wf(),
            r == size_of(old(self).orders@, id),
            final(self)@ == (LevelView {
                price: old(self).price,
                orders: without_id(old(self).orders@, id),
            }),
    {
        let ghost s0 = self.orders@;
        proof {
            lemma_without_id(s0, id, self.price);
            lemma_total_bound(without_id(s0, id));
        }
        let k = self.position_of(id);
        if k < self.orders.len() && self.orders[k].id == id {
            let o = self.orders.remove(k);
            self.size = self.size - o.size as u128;
            Some(o.size)
        } else {
            None
        }
    }

    /// Whether the level holds no order.
    pub fn is_empty(&self) -> (r: bool)
        ensures
            r == (self.orders@.len() == 0),
    {
        self.orders.len() == 0
    }
}

} // verus!
