use matching::depth::{DepthError, SideDepth};
use matching::order_book::{BookOrder, OrderBook, OrderBookSnapshot, RestoreError};
use matching::ordering::{PriceOrderIdKeyAsc, PriceOrderIdKeyDesc, PriceOrderIdKeyOrdering};
use matching::types::{Order, OrderType, Product, Side, TimeInForceType};
use matching::window::{Window, WindowError};
use std::cmp::Ordering;

fn product() -> Product {
    Product { id: String::from("ETH-USD"), base_scale: 4 }
}

fn resting(id: u64, side: Side, price: u64, size: u64) -> BookOrder {
    BookOrder {
        order_id: id,
        user_id: 1,
        size,
        funds: 0,
        price,
        side,
        order_type: OrderType::OrderTypeLimit,
        time_in_force: TimeInForceType::GoodTillCanceled,
    }
}

fn sell(id: u64, price: u64, size: u64) -> Order {
    Order {
        id,
        user_id: 1,
        side: Side::SideSell,
        order_type: OrderType::OrderTypeLimit,
        time_in_force: TimeInForceType::GoodTillCanceled,
        size,
        funds: 0,
        price,
    }
}

fn snapshot_of_one_sell() -> OrderBookSnapshot {
    let mut book = OrderBook::new_order_book(&product());
    book.apply_order(&sell(1, 10, 1));
    book.snapshot()
}

#[test]
fn window_reports_duplicate_and_too_old() {
    let mut w = Window::new(0, 4);
    assert_eq!(w.put(3), None);
    assert_eq!(w.put(3), Some(WindowError::Duplicate));
    assert_eq!(w.put(9), None);
    assert_eq!(w.max, 9);
    assert_eq!(w.put(5), Some(WindowError::TooOld));
    assert_eq!(w.put(6), None);
    assert!(w.would_reject(6));
    assert!(!w.would_reject(7));
    assert!(w.check());
}

#[test]
fn decr_size_errors_and_removal() {
    let mut d = SideDepth::new(true);
    d.add(resting(1, Side::SideSell, 10, 5));
    assert_eq!(d.decr_size(2, 1), Some(DepthError::OrderNotFound));
    assert_eq!(d.decr_size(1, 6), Some(DepthError::SizeExceeded));
    assert_eq!(d.decr_size(1, 2), None);
    assert_eq!(d.get(1).unwrap().size, 3);
    assert_eq!(d.decr_size(1, 3), None);
    assert_eq!(d.get(1), None);
    assert_eq!(d.best(), None);
}

#[test]
fn bid_side_orders_highest_first() {
    let mut d = SideDepth::new(false);
    d.add(resting(3, Side::SideBuy, 10, 1));
    d.add(resting(1, Side::SideBuy, 12, 1));
    d.add(resting(2, Side::SideBuy, 10, 1));
    let keys: Vec<(u64, u64)> = d.orders.iter().map(|o| (o.price, o.order_id)).collect();
    assert_eq!(keys, vec![(12, 1), (10, 2), (10, 3)]);
    assert_eq!(d.find(2), Some(1));
}

#[test]
fn key_orders() {
    let a = PriceOrderIdKeyAsc::new(10, 2);
    let b = PriceOrderIdKeyAsc::new(10, 3);
    let c = PriceOrderIdKeyAsc::new(11, 1);
    assert_eq!(a.cmp(&b), Ordering::Less);
    assert_eq!(c.cmp(&b), Ordering::Greater);
    assert_eq!(a.cmp(&a), Ordering::Equal);
    let x = PriceOrderIdKeyDesc::new(10, 2);
    let y = PriceOrderIdKeyDesc::new(10, 3);
    let z = PriceOrderIdKeyDesc::new(11, 9);
    assert_eq!(x.cmp(&y), Ordering::Less);
    assert_eq!(z.cmp(&x), Ordering::Less);
    assert_eq!(y.cmp(&y), Ordering::Equal);
}

#[test]
fn restore_takes_product_id_from_snapshot() {
    let mut snap = snapshot_of_one_sell();
    snap.product_id = String::from("BTC-USD");
    let mut book = OrderBook::new_order_book(&product());
    assert_eq!(book.restore(&snap), Ok(()));
    assert_eq!(book.product.id, "BTC-USD");
    assert_eq!(book.product.base_scale, 4);
    assert_eq!(book.ask_depths.orders.len(), 1);
}

#[test]
fn restore_refuses_bad_window() {
    let mut snap = snapshot_of_one_sell();
    snap.order_id_window = Window { max: 0, cap: 0, slots: Vec::new() };
    let mut book = OrderBook::new_order_book(&product());
    assert_eq!(book.restore(&snap), Err(RestoreError::InvalidWindow));
}

#[test]
fn restore_refuses_empty_order() {
    let mut snap = snapshot_of_one_sell();
    snap.orders[0].size = 0;
    let mut book = OrderBook::new_order_book(&product());
    assert_eq!(book.restore(&snap), Err(RestoreError::EmptyOrder));
    assert_eq!(book.ask_depths.orders.len(), 0);
}

#[test]
fn restore_refuses_duplicate_order() {
    let mut snap = snapshot_of_one_sell();
    let again = snap.orders[0];
    snap.orders.push(again);
    let mut book = OrderBook::new_order_book(&product());
    assert_eq!(book.restore(&snap), Err(RestoreError::DuplicateOrder));
}

#[test]
fn restore_installs_order_with_fresh_window() {
    let snap = OrderBookSnapshot {
        product_id: String::from("ETH-USD"),
        orders: vec![resting(5, Side::SideSell, 10, 1)],
        trade_seq: 0,
        log_seq: 0,
        order_id_window: Window::new(0, 10000),
    };
    let mut book = OrderBook::new_order_book(&product());
    assert_eq!(book.restore(&snap), Ok(()));
    assert_eq!(book.ask_depths.orders.len(), 1);
    assert_eq!(book.ask_depths.orders[0].order_id, 5);
    assert_eq!(book.bid_depths.orders.len(), 0);
}

#[test]
fn restore_dispatches_any_layout_by_side() {
    let mut book = OrderBook::new_order_book(&product());
    book.apply_order(&sell(1, 12, 1));
    book.apply_order(&sell(2, 10, 1));
    let mut snap = book.snapshot();
    // bids first, asks reversed
    snap.orders = vec![resting(3, Side::SideBuy, 8, 1), resting(1, Side::SideSell, 12, 1), resting(2, Side::SideSell, 10, 1)];
    snap.order_id_window.put(3);
    let mut a = OrderBook::new_order_book(&product());
    let mut b = OrderBook::new_order_book(&product());
    assert_eq!(a.restore(&snap), Ok(()));
    assert_eq!(b.restore(&snap), Ok(()));
    let asks: Vec<u64> = a.ask_depths.orders.iter().map(|o| o.order_id).collect();
    let bids: Vec<u64> = a.bid_depths.orders.iter().map(|o| o.order_id).collect();
    assert_eq!(asks, vec![2, 1]);
    assert_eq!(bids, vec![3]);
    assert_eq!(a.ask_depths.orders, b.ask_depths.orders);
    assert_eq!(a.bid_depths.orders, b.bid_depths.orders);
}

#[test]
fn new_window_slots_are_empty() {
    let book = OrderBook::new_order_book(&product());
    assert!(book.order_id_window.slots.iter().all(|s| s.is_none()));
    assert_eq!(book.order_id_window.slots.len() as u64, book.order_id_window.cap);
}
