use order_book::book::{Event, OrderBook};
use order_book::level::{Order, PriceLevel, Side};

/// Size units per whole unit of the traded asset.
const UNIT: u64 = 100_000_000;

fn order(id: u64, side: Side, price: u64, size: u64) -> Order {
    Order { id, side, price, size }
}

fn bids(b: &OrderBook) -> Vec<(u64, u128)> {
    b.snapshot(usize::MAX).bids
}

fn asks(b: &OrderBook) -> Vec<(u64, u128)> {
    b.snapshot(usize::MAX).asks
}

#[test]
fn crossing_bid_sweeps_asks() {
    let mut b = OrderBook::new();
    b.apply_order_created(order(1, Side::Sell, 99, UNIT));
    assert_eq!(asks(&b), vec![(99, UNIT as u128)]);
    assert!(bids(&b).is_empty());
    b.apply_order_created(order(2, Side::Buy, 100, UNIT / 2));
    assert_eq!(bids(&b), vec![(100, (UNIT / 2) as u128)]);
    assert!(asks(&b).is_empty());
}

#[test]
fn crossing_ask_sweeps_bids_up_to_first_non_crossing() {
    let mut b = OrderBook::new();
    b.apply_order_created(order(1, Side::Buy, 100, 5));
    b.apply_order_created(order(2, Side::Buy, 98, 6));
    b.apply_order_created(order(3, Side::Buy, 97, 7));
    b.apply_order_created(order(4, Side::Sell, 98, 1));
    assert_eq!(bids(&b), vec![(97, 7)]);
    assert_eq!(asks(&b), vec![(98, 1)]);
}

#[test]
fn changed_moves_order_to_new_price() {
    let mut b = OrderBook::new();
    b.apply_order_created(order(7, Side::Buy, 100, UNIT / 2));
    assert_eq!(bids(&b), vec![(100, (UNIT / 2) as u128)]);
    let had_prior = b.apply_order_changed(order(7, Side::Buy, 101, UNIT / 2));
    assert!(had_prior);
    assert_eq!(bids(&b), vec![(101, (UNIT / 2) as u128)]);
}

#[test]
fn changed_without_prior_creates() {
    let mut b = OrderBook::new();
    let had_prior = b.apply_order_changed(order(3, Side::Sell, 120, 4));
    assert!(!had_prior);
    assert_eq!(asks(&b), vec![(120, 4)]);
}

#[test]
fn changed_size_at_same_price_replaces() {
    let mut b = OrderBook::new();
    b.apply_order_created(order(1, Side::Sell, 120, 4));
    b.apply_order_created(order(2, Side::Sell, 120, 6));
    b.apply_order_changed(order(1, Side::Sell, 120, 1));
    assert_eq!(asks(&b), vec![(120, 7)]);
}

#[test]
fn scenario_walk() {
    let mut b = OrderBook::new();
    b.apply_order_created(order(1, Side::Buy, 100, UNIT / 2));
    assert_eq!(bids(&b), vec![(100, (UNIT / 2) as u128)]);
    b.apply_order_created(order(2, Side::Buy, 100, UNIT * 3 / 10));
    assert_eq!(bids(&b), vec![(100, (UNIT * 8 / 10) as u128)]);
    assert!(b.apply_order_deleted(order(1, Side::Buy, 100, UNIT / 2)));
    assert_eq!(bids(&b), vec![(100, (UNIT * 3 / 10) as u128)]);
    assert!(b.apply_order_deleted(order(2, Side::Buy, 100, UNIT * 3 / 10)));
    assert!(bids(&b).is_empty());
    assert!(b.bids.is_empty());
}

#[test]
fn stale_delete_on_empty_book() {
    let mut b = OrderBook::new();
    let found = b.apply_order_deleted(order(42, Side::Sell, 100, 1));
    assert!(!found);
    assert!(bids(&b).is_empty());
    assert!(asks(&b).is_empty());
    let stale = b.apply(&Event::OrderDeleted(order(43, Side::Buy, 100, 1)));
    assert!(stale);
    assert!(bids(&b).is_empty());
}

#[test]
fn stale_delete_of_unknown_id_at_existing_price() {
    let mut b = OrderBook::new();
    b.apply_order_created(order(1, Side::Buy, 100, 5));
    assert!(!b.apply_order_deleted(order(2, Side::Buy, 100, 5)));
    assert!(!b.apply_order_deleted(order(1, Side::Buy, 99, 5)));
    assert!(!b.apply_order_deleted(order(1, Side::Sell, 100, 5)));
    assert_eq!(bids(&b), vec![(100, 5)]);
}

#[test]
fn creates_at_interleaved_prices_aggregate() {
    let mut b = OrderBook::new();
    let prices = [100u64, 102, 100, 101, 102, 100];
    let mut id: u64 = 1;
    for p in prices {
        b.apply_order_created(order(id, Side::Buy, p, id * 10));
        id += 1;
    }
    assert_eq!(bids(&b), vec![(102, 50 + 20), (101, 40), (100, 10 + 30 + 60)]);
}

#[test]
fn ask_levels_ascend() {
    let mut b = OrderBook::new();
    for (id, p) in [(1u64, 105u64), (2, 103), (3, 107), (4, 104), (5, 103)] {
        b.apply_order_created(order(id, Side::Sell, p, 1));
    }
    assert_eq!(asks(&b), vec![(103, 2), (104, 1), (105, 1), (107, 1)]);
}

#[test]
fn delete_non_last_order_keeps_level() {
    let mut b = OrderBook::new();
    b.apply_order_created(order(1, Side::Sell, 110, 3));
    b.apply_order_created(order(2, Side::Sell, 110, 9));
    b.apply_order_created(order(3, Side::Sell, 111, 1));
    assert!(b.apply_order_deleted(order(2, Side::Sell, 110, 9)));
    assert_eq!(asks(&b), vec![(110, 3), (111, 1)]);
    assert!(b.apply_order_deleted(order(1, Side::Sell, 110, 3)));
    assert_eq!(asks(&b), vec![(111, 1)]);
}

#[test]
fn snapshot_is_repeatable_and_truncated() {
    let mut b = OrderBook::new();
    for (id, p) in [(1u64, 90u64), (2, 91), (3, 92)] {
        b.apply_order_created(order(id, Side::Buy, p, id));
    }
    for (id, p) in [(4u64, 95u64), (5, 96)] {
        b.apply_order_created(order(id, Side::Sell, p, id));
    }
    let s1 = b.snapshot(2);
    let s2 = b.snapshot(2);
    assert_eq!(s1.bids, s2.bids);
    assert_eq!(s1.asks, s2.asks);
    assert_eq!(s1.bids, vec![(92, 3), (91, 2)]);
    assert_eq!(s1.asks, vec![(95, 4), (96, 5)]);
    let s0 = b.snapshot(0);
    assert!(s0.bids.is_empty() && s0.asks.is_empty());
}

#[test]
fn trade_and_other_events_change_nothing() {
    let mut b = OrderBook::new();
    b.apply(&Event::OrderCreated(order(1, Side::Buy, 100, 5)));
    assert!(!b.apply(&Event::Trade));
    assert!(!b.apply(&Event::Other));
    assert_eq!(bids(&b), vec![(100, 5)]);
    assert!(asks(&b).is_empty());
}

#[test]
fn apply_dispatches_each_kind() {
    let mut b = OrderBook::new();
    assert!(!b.apply(&Event::OrderCreated(order(1, Side::Sell, 100, 5))));
    assert!(!b.apply(&Event::OrderChanged(order(1, Side::Sell, 101, 6))));
    assert_eq!(asks(&b), vec![(101, 6)]);
    assert!(!b.apply(&Event::OrderDeleted(order(1, Side::Sell, 101, 6))));
    assert!(asks(&b).is_empty());
}

#[test]
fn level_insert_remove_and_empty() {
    let mut l = PriceLevel::new(order(5, Side::Buy, 100, 10));
    l.insert_order(order(2, Side::Buy, 100, 7));
    l.insert_order(order(9, Side::Buy, 100, 1));
    assert_eq!(l.size, 18);
    let ids: Vec<u64> = l.orders.iter().map(|o| o.id).collect();
    assert_eq!(ids, vec![2, 5, 9]);
    assert_eq!(l.order_size(9), Some(1));
    assert_eq!(l.remove_order(5), Some(10));
    assert_eq!(l.remove_order(5), None);
    assert_eq!(l.size, 8);
    assert!(!l.is_empty());
    assert_eq!(l.remove_order(2), Some(7));
    assert_eq!(l.remove_order(9), Some(1));
    assert!(l.is_empty());
    assert_eq!(l.size, 0);
}

#[test]
fn level_insert_same_id_replaces() {
    let mut l = PriceLevel::new(order(5, Side::Sell, 100, 10));
    l.insert_order(order(5, Side::Sell, 100, 4));
    assert_eq!(l.size, 4);
    assert_eq!(l.orders.len(), 1);
}

#[test]
fn large_sizes_aggregate_without_overflow() {
    let mut b = OrderBook::new();
    b.apply_order_created(order(1, Side::Buy, 100, u64::MAX));
    b.apply_order_created(order(2, Side::Buy, 100, u64::MAX));
    assert_eq!(bids(&b), vec![(100, 2 * (u64::MAX as u128))]);
}

#[test]
fn sides_stay_sorted_over_mixed_events() {
    let mut b = OrderBook::new();
    let events = vec![
        Event::OrderCreated(order(1, Side::Buy, 100, 3)),
        Event::OrderCreated(order(2, Side::Sell, 105, 2)),
        Event::OrderCreated(order(3, Side::Buy, 102, 1)),
        Event::OrderCreated(order(4, Side::Sell, 103, 4)),
        Event::OrderChanged(order(1, Side::Buy, 101, 3)),
        Event::OrderDeleted(order(3, Side::Buy, 102, 1)),
        Event::OrderCreated(order(5, Side::Sell, 110, 1)),
        Event::OrderCreated(order(6, Side::Buy, 99, 8)),
        Event::OrderDeleted(order(9, Side::Sell, 103, 1)),
    ];
    for e in &events {
        b.apply(e);
        let s = b.snapshot(usize::MAX);
        assert!(s.bids.windows(2).all(|w| w[0].0 > w[1].0));
        assert!(s.asks.windows(2).all(|w| w[0].0 < w[1].0));
        if let (Some(bid), Some(ask)) = (s.bids.first(), s.asks.first()) {
            assert!(bid.0 < ask.0);
        }
    }
    assert_eq!(bids(&b), vec![(101, 3), (99, 8)]);
    assert_eq!(asks(&b), vec![(103, 4), (105, 2), (110, 1)]);
}
