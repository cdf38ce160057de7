use matching::log::{DoneLog, Log, MatchLog, OpenLog};
use matching::order_book::{BookOrder, OrderBook, ORDER_ID_WINDOW_CAP};
use matching::types::{DoneReason, Order, OrderType, Product, Side, TimeInForceType};

fn product(base_scale: u32) -> Product {
    Product { id: String::from("BTC-USD"), base_scale }
}

fn limit(id: u64, side: Side, price: u64, size: u64) -> Order {
    Order {
        id,
        user_id: 100 + id,
        side,
        order_type: OrderType::OrderTypeLimit,
        time_in_force: TimeInForceType::GoodTillCanceled,
        size,
        funds: 0,
        price,
    }
}

fn market_buy(id: u64, funds: u128) -> Order {
    Order {
        id,
        user_id: 100 + id,
        side: Side::SideBuy,
        order_type: OrderType::OrderTypeMarket,
        time_in_force: TimeInForceType::ImmediateOrCancel,
        size: 0,
        funds,
        price: 0,
    }
}

fn market_sell(id: u64, size: u64) -> Order {
    Order {
        id,
        user_id: 100 + id,
        side: Side::SideSell,
        order_type: OrderType::OrderTypeMarket,
        time_in_force: TimeInForceType::ImmediateOrCancel,
        size,
        funds: 0,
        price: 0,
    }
}

fn as_open(l: &Log) -> &OpenLog {
    match l {
        Log::Open(o) => o,
        _ => panic!("expected an open log, got {:?}", l),
    }
}

fn as_done(l: &Log) -> &DoneLog {
    match l {
        Log::Done(d) => d,
        _ => panic!("expected a done log, got {:?}", l),
    }
}

fn as_match(l: &Log) -> &MatchLog {
    match l {
        Log::Match(m) => m,
        _ => panic!("expected a match log, got {:?}", l),
    }
}

fn head(orders: &Vec<BookOrder>) -> (u64, u64) {
    (orders[0].price, orders[0].order_id)
}

#[test]
fn rest_one_limit_bid() {
    let mut book = OrderBook::new_order_book(&product(0));
    let logs = book.apply_order(&limit(1, Side::SideBuy, 100, 1));
    assert_eq!(logs.len(), 1);
    let open = as_open(&logs[0]);
    assert_eq!(open.base.sequence, 1);
    assert_eq!(open.price, 100);
    assert_eq!(open.remaining_size, 1);
    assert_eq!(open.base.product_id, "BTC-USD");
    assert_eq!(head(&book.bid_depths.orders), (100, 1));
}

#[test]
fn cross_a_resting_ask() {
    let mut book = OrderBook::new_order_book(&product(0));
    book.apply_order(&limit(1, Side::SideBuy, 100, 1));
    let seeded = book.apply_order(&limit(3, Side::SideSell, 101, 1));
    assert_eq!(seeded.len(), 1);
    as_open(&seeded[0]);
    let logs = book.apply_order(&limit(2, Side::SideBuy, 101, 1));
    assert_eq!(logs.len(), 3);
    let m = as_match(&logs[0]);
    assert_eq!(m.trade_seq, 1);
    assert_eq!(m.price, 101);
    assert_eq!(m.size, 1);
    assert_eq!(m.maker_order_id, 3);
    assert_eq!(m.taker_order_id, 2);
    assert_eq!(m.side, Side::SideSell);
    let maker_done = as_done(&logs[1]);
    assert_eq!(maker_done.order_id, 3);
    assert_eq!(maker_done.reason, DoneReason::Filled);
    assert_eq!(maker_done.remaining_size, 0);
    let taker_done = as_done(&logs[2]);
    assert_eq!(taker_done.order_id, 2);
    assert_eq!(taker_done.reason, DoneReason::Filled);
    assert_eq!(book.ask_depths.orders.len(), 0);
}

#[test]
fn partial_fill_and_rest() {
    let mut book = OrderBook::new_order_book(&product(0));
    book.apply_order(&limit(10, Side::SideSell, 50, 1));
    let logs = book.apply_order(&limit(11, Side::SideBuy, 50, 3));
    assert_eq!(logs.len(), 3);
    assert_eq!(as_match(&logs[0]).size, 1);
    let done = as_done(&logs[1]);
    assert_eq!(done.order_id, 10);
    assert_eq!(done.reason, DoneReason::Filled);
    let open = as_open(&logs[2]);
    assert_eq!(open.order_id, 11);
    assert_eq!(open.remaining_size, 2);
    assert_eq!(open.price, 50);
    assert_eq!(head(&book.bid_depths.orders), (50, 11));
}

#[test]
fn market_buy_exhausts_book_and_cancels_remainder() {
    // base_scale 2: a size counts hundredths, funds count hundredths of a tick
    let mut book = OrderBook::new_order_book(&product(2));
    book.apply_order(&limit(20, Side::SideSell, 10, 200));
    let logs = book.apply_order(&market_buy(21, 10_000));
    assert_eq!(logs.len(), 3);
    let m = as_match(&logs[0]);
    assert_eq!(m.size, 200);
    assert_eq!(m.price, 10);
    let maker_done = as_done(&logs[1]);
    assert_eq!(maker_done.order_id, 20);
    assert_eq!(maker_done.reason, DoneReason::Filled);
    let taker_done = as_done(&logs[2]);
    assert_eq!(taker_done.order_id, 21);
    assert_eq!(taker_done.reason, DoneReason::Cancelled);
    assert_eq!(taker_done.price, 0);
    assert_eq!(taker_done.remaining_size, 0);
}

#[test]
fn duplicate_suppression() {
    let mut book = OrderBook::new_order_book(&product(0));
    let first = book.apply_order(&limit(1, Side::SideBuy, 100, 1));
    assert_eq!(first.len(), 1);
    let second = book.apply_order(&limit(1, Side::SideBuy, 100, 1));
    assert!(second.is_empty());
    assert_eq!(book.log_seq, 1);
    assert_eq!(book.trade_seq, 0);
    assert_eq!(book.bid_depths.orders.len(), 1);
    assert_eq!(book.ask_depths.orders.len(), 0);
}

#[test]
fn tie_break_by_order_id() {
    let mut book = OrderBook::new_order_book(&product(0));
    book.apply_order(&limit(7, Side::SideSell, 5, 1));
    book.apply_order(&limit(4, Side::SideSell, 5, 1));
    assert_eq!(head(&book.ask_depths.orders), (5, 4));
    let logs = book.apply_order(&limit(8, Side::SideBuy, 5, 1));
    assert_eq!(as_match(&logs[0]).maker_order_id, 4);
}

#[test]
fn market_buy_truncates_toward_zero() {
    let mut book = OrderBook::new_order_book(&product(2));
    book.apply_order(&limit(1, Side::SideSell, 3, 5000));
    // 100.00 of funds at price 3 buy 33.33, never 33.34
    let logs = book.apply_order(&market_buy(2, 10_000));
    assert_eq!(logs.len(), 2);
    assert_eq!(as_match(&logs[0]).size, 3333);
    let done = as_done(&logs[1]);
    assert_eq!(done.order_id, 2);
    assert_eq!(done.reason, DoneReason::Cancelled);
    assert_eq!(book.ask_depths.orders[0].size, 5000 - 3333);
}

#[test]
fn market_buy_exactly_spent_is_filled() {
    let mut book = OrderBook::new_order_book(&product(0));
    book.apply_order(&limit(1, Side::SideSell, 10, 5));
    let logs = book.apply_order(&market_buy(2, 30));
    assert_eq!(logs.len(), 2);
    assert_eq!(as_match(&logs[0]).size, 3);
    let done = as_done(&logs[1]);
    assert_eq!(done.reason, DoneReason::Filled);
    assert_eq!(book.ask_depths.orders[0].size, 2);
}

#[test]
fn market_sell_on_empty_book_is_cancelled() {
    let mut book = OrderBook::new_order_book(&product(0));
    let logs = book.apply_order(&market_sell(1, 4));
    assert_eq!(logs.len(), 1);
    let done = as_done(&logs[0]);
    assert_eq!(done.reason, DoneReason::Cancelled);
    assert_eq!(done.price, 0);
    assert_eq!(done.remaining_size, 0);
}

#[test]
fn market_sell_walks_several_bids() {
    let mut book = OrderBook::new_order_book(&product(0));
    book.apply_order(&limit(1, Side::SideBuy, 9, 2));
    book.apply_order(&limit(2, Side::SideBuy, 11, 2));
    let logs = book.apply_order(&market_sell(3, 3));
    assert_eq!(logs.len(), 4);
    let m1 = as_match(&logs[0]);
    assert_eq!((m1.maker_order_id, m1.price, m1.size, m1.trade_seq), (2, 11, 2, 1));
    assert_eq!(as_done(&logs[1]).order_id, 2);
    let m2 = as_match(&logs[2]);
    assert_eq!((m2.maker_order_id, m2.price, m2.size, m2.trade_seq), (1, 9, 1, 2));
    assert_eq!(as_done(&logs[3]).reason, DoneReason::Filled);
    assert_eq!(book.bid_depths.orders[0].size, 1);
}

#[test]
fn limit_does_not_cross_worse_price() {
    let mut book = OrderBook::new_order_book(&product(0));
    book.apply_order(&limit(1, Side::SideSell, 105, 1));
    let logs = book.apply_order(&limit(2, Side::SideBuy, 100, 1));
    assert_eq!(logs.len(), 1);
    as_open(&logs[0]);
    assert_eq!(book.ask_depths.orders.len(), 1);
    assert_eq!(book.bid_depths.orders.len(), 1);
}

#[test]
fn cancel_removes_resting_order_once() {
    let mut book = OrderBook::new_order_book(&product(0));
    book.apply_order(&limit(5, Side::SideSell, 10, 3));
    // a resting sell is looked up with a buy-side request
    let cancel = limit(5, Side::SideBuy, 10, 3);
    let first = book.cancel_order(&cancel);
    assert_eq!(first.len(), 1);
    assert_eq!(first[0].order_id, 5);
    assert_eq!(first[0].reason, DoneReason::Cancelled);
    assert_eq!(first[0].remaining_size, 0);
    assert_eq!(first[0].base.sequence, 2);
    assert_eq!(book.ask_depths.orders.len(), 0);
    let second = book.cancel_order(&cancel);
    assert!(second.is_empty());
    assert_eq!(book.log_seq, 2);
}

#[test]
fn cancel_unknown_id_is_empty() {
    let mut book = OrderBook::new_order_book(&product(0));
    let logs = book.cancel_order(&limit(9, Side::SideSell, 1, 1));
    assert!(logs.is_empty());
    assert_eq!(book.log_seq, 0);
}

#[test]
fn nullify_reports_order_size() {
    let mut book = OrderBook::new_order_book(&product(0));
    let logs = book.nullify_order(&limit(3, Side::SideBuy, 7, 4));
    assert_eq!(logs.len(), 1);
    assert_eq!(logs[0].remaining_size, 4);
    assert_eq!(logs[0].price, 7);
    assert_eq!(logs[0].reason, DoneReason::Cancelled);
    assert_eq!(book.log_seq, 1);
    assert_eq!(book.bid_depths.orders.len(), 0);
    // the id is now refused
    assert!(book.apply_order(&limit(3, Side::SideBuy, 7, 4)).is_empty());
}

#[test]
fn sequences_are_gap_free_across_calls() {
    let mut book = OrderBook::new_order_book(&product(0));
    let mut all: Vec<u64> = Vec::new();
    for l in book.apply_order(&limit(1, Side::SideSell, 10, 1)) {
        all.push(l.get_seq());
    }
    for l in book.apply_order(&limit(2, Side::SideSell, 11, 1)) {
        all.push(l.get_seq());
    }
    for l in book.apply_order(&limit(3, Side::SideBuy, 11, 3)) {
        all.push(l.get_seq());
    }
    for l in book.cancel_order(&limit(3, Side::SideSell, 11, 1)) {
        all.push(l.get_seq());
    }
    for l in book.nullify_order(&limit(4, Side::SideSell, 11, 1)) {
        all.push(l.get_seq());
    }
    let expected: Vec<u64> = (1..=all.len() as u64).collect();
    assert_eq!(all, expected);
    assert_eq!(book.trade_seq, 2);
}

#[test]
fn queue_and_orders_agree_and_heads_are_best() {
    let mut book = OrderBook::new_order_book(&product(0));
    book.apply_order(&limit(1, Side::SideSell, 12, 1));
    book.apply_order(&limit(2, Side::SideSell, 10, 1));
    book.apply_order(&limit(3, Side::SideSell, 11, 1));
    book.apply_order(&limit(4, Side::SideBuy, 8, 1));
    book.apply_order(&limit(5, Side::SideBuy, 9, 1));
    book.apply_order(&limit(6, Side::SideBuy, 7, 1));
    let asks: Vec<(u64, u64)> = book.ask_depths.orders.iter().map(|o| (o.price, o.order_id)).collect();
    let bids: Vec<(u64, u64)> = book.bid_depths.orders.iter().map(|o| (o.price, o.order_id)).collect();
    assert_eq!(asks, vec![(10, 2), (11, 3), (12, 1)]);
    assert_eq!(bids, vec![(9, 5), (8, 4), (7, 6)]);
    assert!(book.ask_depths.orders.iter().all(|o| o.size > 0));
    assert_eq!(book.ask_depths.len(), 3);
    assert_eq!(book.ask_depths.best().unwrap().order_id, 2);
    assert_eq!(book.bid_depths.best().unwrap().order_id, 5);
}

#[test]
fn traded_size_stays_within_taker() {
    let mut book = OrderBook::new_order_book(&product(0));
    book.apply_order(&limit(1, Side::SideSell, 10, 4));
    book.apply_order(&limit(2, Side::SideSell, 10, 4));
    let logs = book.apply_order(&limit(3, Side::SideBuy, 10, 5));
    let total: u64 = logs
        .iter()
        .filter_map(|l| match l {
            Log::Match(m) => Some(m.size),
            _ => None,
        })
        .sum();
    assert_eq!(total, 5);
    let logs = book.apply_order(&market_buy(4, 25));
    let total: u64 = logs
        .iter()
        .filter_map(|l| match l {
            Log::Match(m) => Some(m.size),
            _ => None,
        })
        .sum();
    assert!(total * 10 <= 25);
    assert_eq!(total, 2);
}

#[test]
fn snapshot_restore_snapshot_is_identity() {
    let mut book = OrderBook::new_order_book(&product(0));
    book.apply_order(&limit(1, Side::SideSell, 12, 1));
    book.apply_order(&limit(2, Side::SideSell, 10, 2));
    book.apply_order(&limit(3, Side::SideBuy, 8, 1));
    book.apply_order(&limit(4, Side::SideBuy, 10, 1));
    let snap = book.snapshot();
    let mut restored = OrderBook::new_order_book(&product(0));
    assert_eq!(restored.restore(&snap), Ok(()));
    let again = restored.snapshot();
    assert_eq!(again.product_id, snap.product_id);
    assert_eq!(again.orders, snap.orders);
    assert_eq!(again.trade_seq, snap.trade_seq);
    assert_eq!(again.log_seq, snap.log_seq);
    assert_eq!(again.order_id_window.max, snap.order_id_window.max);
    assert_eq!(again.order_id_window.slots, snap.order_id_window.slots);
}

fn events(logs: &Vec<Log>) -> Vec<String> {
    logs.iter()
        .map(|l| match l {
            Log::Open(o) => format!("open {} {} {} {}", o.base.sequence, o.order_id, o.price, o.remaining_size),
            Log::Done(d) => format!("done {} {} {} {} {:?}", d.base.sequence, d.order_id, d.price, d.remaining_size, d.reason),
            Log::Match(m) => format!(
                "match {} {} {} {} {} {}",
                m.base.sequence, m.trade_seq, m.taker_order_id, m.maker_order_id, m.price, m.size
            ),
        })
        .collect()
}

#[test]
fn restored_book_answers_like_its_source_book() {
    let mut book = OrderBook::new_order_book(&product(0));
    book.apply_order(&limit(1, Side::SideSell, 12, 3));
    book.apply_order(&limit(2, Side::SideBuy, 9, 2));
    let snap = book.snapshot();
    let mut restored = OrderBook::new_order_book(&product(0));
    restored.restore(&snap).unwrap();
    let script = vec![
        limit(3, Side::SideBuy, 12, 1),
        limit(2, Side::SideBuy, 9, 2),
        market_sell(4, 5),
        limit(5, Side::SideSell, 13, 1),
    ];
    for o in &script {
        assert_eq!(events(&book.apply_order(o)), events(&restored.apply_order(o)));
    }
    let c = limit(1, Side::SideBuy, 12, 1);
    let a: Vec<(u64, u64)> = book.cancel_order(&c).iter().map(|d| (d.base.sequence, d.order_id)).collect();
    let b: Vec<(u64, u64)> = restored.cancel_order(&c).iter().map(|d| (d.base.sequence, d.order_id)).collect();
    assert_eq!(a, b);
}

#[test]
fn window_refuses_too_old_ids() {
    let mut book = OrderBook::new_order_book(&product(0));
    book.apply_order(&limit(ORDER_ID_WINDOW_CAP + 5, Side::SideBuy, 1, 1));
    assert!(book.apply_order(&limit(5, Side::SideBuy, 1, 1)).is_empty());
    assert_eq!(book.apply_order(&limit(6, Side::SideBuy, 1, 1)).len(), 1);
}

#[test]
fn will_not_match_and_will_full_match() {
    let mut book = OrderBook::new_order_book(&product(0));
    assert!(book.is_order_will_not_match(&limit(1, Side::SideBuy, 10, 1)));
    book.apply_order(&limit(1, Side::SideSell, 10, 2));
    assert!(book.is_order_will_not_match(&limit(2, Side::SideBuy, 9, 1)));
    assert!(!book.is_order_will_not_match(&limit(2, Side::SideBuy, 10, 1)));
    assert!(!book.is_order_will_not_match(&market_buy(2, 1)));
    assert!(book.is_order_will_full_match(&limit(2, Side::SideBuy, 10, 2)));
    assert!(!book.is_order_will_full_match(&limit(2, Side::SideBuy, 10, 3)));
    assert!(!book.is_order_will_full_match(&limit(2, Side::SideBuy, 9, 1)));
    assert!(book.is_order_will_full_match(&market_buy(2, 1)));
}

#[test]
fn logs_carry_a_clock_time() {
    let mut book = OrderBook::new_order_book(&product(0));
    let logs = book.apply_order(&limit(1, Side::SideBuy, 1, 1));
    assert!(as_open(&logs[0]).base.time > 0);
}

#[test]
fn largest_sizes_trade_without_overflow() {
    let mut book = OrderBook::new_order_book(&product(0));
    book.apply_order(&limit(1, Side::SideSell, 1, u64::MAX));
    let logs = book.apply_order(&market_buy(2, u128::MAX));
    assert_eq!(as_match(&logs[0]).size, u64::MAX);
    assert_eq!(as_done(&logs[1]).order_id, 1);
    let done = as_done(&logs[2]);
    assert_eq!(done.reason, DoneReason::Cancelled);
    book.apply_order(&limit(3, Side::SideSell, u64::MAX, u64::MAX));
    let logs = book.apply_order(&limit(4, Side::SideBuy, u64::MAX, u64::MAX));
    assert_eq!(as_match(&logs[0]).size, u64::MAX);
    assert_eq!(as_done(&logs[2]).reason, DoneReason::Filled);
    assert_eq!(book.ask_depths.orders.len() + book.bid_depths.orders.len(), 0);
}

#[test]
fn market_buy_takes_all_of_a_zero_price_maker() {
    let mut book = OrderBook::new_order_book(&product(0));
    book.apply_order(&limit(1, Side::SideSell, 0, 5));
    let logs = book.apply_order(&market_buy(2, 7));
    assert_eq!(as_match(&logs[0]).size, 5);
    assert_eq!(as_match(&logs[0]).price, 0);
    let done = as_done(&logs[2]);
    assert_eq!(done.reason, DoneReason::Cancelled);
}
