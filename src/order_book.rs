use vstd::prelude::*;

use crate::depth::{lemma_sorted_unique, lemma_sorted_insert_unique, after_decrement, decreased, holds_id, holds_like, ids_within, same_origin, lemma_ids_within_trans, order_precedes, sorted_by, SideDepth};
use crate::log::{done_event, match_event, new_done_log, new_match_log, new_open_log, open_event, DoneLog, Log, LogEvent};
use crate::types::{DoneReason, Order, OrderType, Product, Side, TimeInForceType};
use crate::window::{view_wf, Window};

verus! {

/// The engine's working copy of an order: a taker for one call, or a maker
/// resting on one side of the book.
#[derive(Clone, Copy, Debug, PartialEq, Eq, Structural)]
pub struct BookOrder {
    pub order_id: u64,
    pub user_id: u64,
    pub size: u64,
    pub funds: u128,
    pub price: u64,
    pub side: Side,
    pub order_type: OrderType,
    pub time_in_force: TimeInForceType,
}

pub open spec fn book_order_of(order: Order) -> BookOrder {
    BookOrder {
        order_id: order.id,
        user_id: order.user_id,
        size: order.size,
        funds: order.funds,
        price: order.price,
        side: order.side,
        order_type: order.order_type,
        time_in_force: order.time_in_force,
    }
}

impl BookOrder {
    pub fn new_book_order(order: &Order) -> (r: BookOrder)
        ensures
            r == book_order_of(*order),
    {
        BookOrder {
            order_id: order.id,
            user_id: order.user_id,
            size: order.size,
            funds: order.funds,
            price: order.price,
            side: order.side,
            order_type: order.order_type,
            time_in_force: order.time_in_force,
        }
    }
}

/// Ids the window looks back over.
pub const ORDER_ID_WINDOW_CAP: u64 = 10000;

/// The taker as it enters the walk: a market order takes the price that
/// crosses every maker, the largest for a buy and zero for a sell.
pub open spec fn taker_of(order: Order) -> BookOrder {
    let t = book_order_of(order);
    if t.order_type == OrderType::OrderTypeMarket {
        BookOrder { price: if t.side == Side::SideBuy { u64::MAX } else { 0 }, ..t }
    } else {
        t
    }
}

pub open spec fn is_market_buy(t: BookOrder) -> bool {
    t.order_type == OrderType::OrderTypeMarket && t.side == Side::SideBuy
}

/// The taker's price reaches the maker's.
pub open spec fn crosses(t: BookOrder, m: BookOrder) -> bool {
    if t.side == Side::SideBuy {
        t.price >= m.price
    } else {
        t.price <= m.price
    }
}

/// The walk ends before maker `m`: a limit taker with nothing left or whose
/// price does not reach `m`, a market buy out of funds, a market sell out of
/// size.
pub open spec fn stops_before(t: BookOrder, m: BookOrder) -> bool {
    if t.order_type == OrderType::OrderTypeLimit {
        t.size == 0 || !crosses(t, m)
    } else if t.side == Side::SideBuy {
        t.funds == 0
    } else {
        t.size == 0
    }
}

/// Lots that `funds` buys at `price`, rounded toward zero; any amount when
/// the price is zero. Funds count one lot times one tick, so this whole
/// quotient is `funds / price` truncated to `base_scale` decimal places.
pub open spec fn affordable(funds: u128, price: u64) -> int {
    if price == 0 {
        u64::MAX as int
    } else {
        funds as int / price as int
    }
}

pub open spec fn min(a: int, b: int) -> int {
    if a <= b {
        a
    } else {
        b
    }
}

/// The size of the trade between `t` and `m`.
pub open spec fn trade_size(t: BookOrder, m: BookOrder) -> u64 {
    if is_market_buy(t) {
        min(affordable(t.funds, m.price), m.size as int) as u64
    } else {
        min(t.size as int, m.size as int) as u64
    }
}

/// The taker after a trade of `size` with `m`: a market buy pays
/// `size * m.price` from its funds, any other taker gives up `size`.
pub open spec fn after_trade(t: BookOrder, m: BookOrder, size: u64) -> BookOrder {
    if is_market_buy(t) {
        BookOrder { funds: (t.funds - size * m.price) as u128, ..t }
    } else {
        BookOrder { size: (t.size - size) as u64, ..t }
    }
}

/// One trade of the walk: the maker as it was before, and the size traded.
#[derive(Clone, Copy, Debug, PartialEq, Eq, Structural)]
pub struct Fill {
    pub maker: BookOrder,
    pub size: u64,
}

/// The walk of taker `t` down the opposite queue `makers`, best first: the
/// taker at the end and the trades, in order.
pub open spec fn walk(t: BookOrder, makers: Seq<BookOrder>) -> (BookOrder, Seq<Fill>)
    decreases makers.len(),
{
    if makers.len() == 0 || stops_before(t, makers[0]) {
        (t, Seq::empty())
    } else {
        let size = trade_size(t, makers[0]);
        let rest = walk(after_trade(t, makers[0], size), makers.drop_first());
        (rest.0, seq![Fill { maker: makers[0], size }] + rest.1)
    }
}

/// What the walked makers leave on the queue: each keeps its remainder, and
/// leaves when nothing remains.
pub open spec fn remaining(fills: Seq<Fill>) -> Seq<BookOrder>
    decreases fills.len(),
{
    if fills.len() == 0 {
        Seq::empty()
    } else {
        let f = fills.last();
        let before = remaining(fills.drop_last());
        if f.maker.size == f.size {
            before
        } else {
            before.push(decreased(f.maker, f.size))
        }
    }
}

/// The logs of one trade: the match, then the maker's done log when it was
/// filled.
pub open spec fn fill_logs(t: BookOrder, f: Fill, trade_seq: u64) -> Seq<LogEvent> {
    let m = match_event(trade_seq, t, f.maker, f.maker.price, f.size);
    if f.maker.size == f.size {
        seq![m, done_event(f.maker, 0, DoneReason::Filled)]
    } else {
        seq![m]
    }
}

/// The logs of the trades `fills` of taker `t`, the first numbered
/// `trade_seq + 1`.
pub open spec fn fills_logs(t: BookOrder, fills: Seq<Fill>, trade_seq: int) -> Seq<LogEvent>
    decreases fills.len(),
{
    if fills.len() == 0 {
        Seq::empty()
    } else {
        fills_logs(t, fills.drop_last(), trade_seq) + fill_logs(
            t,
            fills.last(),
            (trade_seq + fills.len()) as u64,
        )
    }
}

/// A limit taker with size left rests on its own side.
pub open spec fn rests(t: BookOrder) -> bool {
    t.order_type == OrderType::OrderTypeLimit && t.size > 0
}

/// How a taker that does not rest is closed: a market order with size (sell)
/// or funds (buy) left is cancelled, anything else is filled.
pub open spec fn close_reason(t: BookOrder) -> DoneReason {
    if t.order_type == OrderType::OrderTypeMarket && ((t.side == Side::SideSell && t.size > 0) || (
    t.side == Side::SideBuy && t.funds > 0)) {
        DoneReason::Cancelled
    } else {
        DoneReason::Filled
    }
}

/// The last log of an accepted order, from the taker at the end of its walk.
/// A closed market order reports price and remaining size zero.
pub open spec fn taker_log(t: BookOrder) -> LogEvent {
    if rests(t) {
        open_event(t)
    } else if t.order_type == OrderType::OrderTypeLimit {
        done_event(t, t.size, DoneReason::Filled)
    } else {
        done_event(BookOrder { price: 0, ..t }, 0, close_reason(t))
    }
}

/// The logs `logs` carry the events `events`, numbered from `log_seq + 1`, for
/// product `product_id`.
pub open spec fn logs_match(logs: Seq<Log>, events: Seq<LogEvent>, log_seq: int, product_id: Seq<char>) -> bool {
    &&& logs.len() == events.len()
    &&& forall|i: int|
        0 <= i < logs.len() ==> #[trigger] logs[i].event() == events[i] && logs[i].sequence() == log_seq
            + 1 + i && logs[i].base().product_id@ == product_id
}

fn stops_at(t: &BookOrder, m: &BookOrder) -> (r: bool)
    ensures
        r == stops_before(*t, *m),
{
    match t.order_type {
        OrderType::OrderTypeLimit => {
            let crossed = match t.side {
                Side::SideBuy => t.price >= m.price,
                Side::SideSell => t.price <= m.price,
            };
            t.size == 0 || !crossed
        },
        OrderType::OrderTypeMarket => match t.side {
            Side::SideBuy => t.funds == 0,
            Side::SideSell => t.size == 0,
        },
    }
}

fn size_of_trade(t: &BookOrder, m: &BookOrder) -> (r: u64)
    ensures
        r == trade_size(*t, *m),
{
    if t.order_type == OrderType::OrderTypeMarket && t.side == Side::SideBuy {
        if m.price == 0 {
            m.size
        } else {
            let lots = t.funds / (m.price as u128);
            if lots < m.size as u128 {
                lots as u64
            } else {
                m.size
            }
        }
    } else if t.size < m.size {
        t.size
    } else {
        m.size
    }
}

/// The trade never asks more of the taker than it has.
proof fn lemma_trade_fits(t: BookOrder, m: BookOrder)
    ensures
        is_market_buy(t) ==> trade_size(t, m) as int * m.price as int <= t.funds as int,
        !is_market_buy(t) ==> trade_size(t, m) <= t.size,
        trade_size(t, m) <= m.size,
{
    if is_market_buy(t) && m.price > 0 {
        let a = t.funds as int / m.price as int;
        let s = trade_size(t, m) as int;
        assert(a * m.price as int <= t.funds as int) by (nonlinear_arith)
            requires
                a == t.funds as int / m.price as int,
                m.price > 0,
                t.funds >= 0;
        assert(s * m.price as int <= a * m.price as int) by (nonlinear_arith)
            requires
                s <= a,
                m.price >= 0;
    }
}

fn trade(t: &BookOrder, m: &BookOrder, size: u64) -> (r: BookOrder)
    requires
        size == trade_size(*t, *m),
    ensures
        r == after_trade(*t, *m, size),
{
    proof {
        lemma_trade_fits(*t, *m);
    }
    if t.order_type == OrderType::OrderTypeMarket && t.side == Side::SideBuy {
        let cost = (size as u128) * (m.price as u128);
        BookOrder { funds: t.funds - cost, ..*t }
    } else {
        BookOrder { size: t.size - size, ..*t }
    }
}

proof fn lemma_remaining_len(fills: Seq<Fill>)
    ensures
        remaining(fills).len() <= fills.len(),
    decreases fills.len(),
{
    if fills.len() > 0 {
        lemma_remaining_len(fills.drop_last());
    }
}

/// Walks `taker` down the opposite side `opposite` from its head, trading
/// with each maker until the walk stops, and returns the logs of the trades.
fn match_taker(
    opposite: &mut SideDepth,
    taker: &mut BookOrder,
    log_seq: &mut u64,
    trade_seq: &mut u64,
    product_id: &str,
) -> (logs: Vec<Log>)
    requires
        old(opposite).wf(),
        *old(log_seq) + 2 * old(opposite).orders@.len() <= u64::MAX,
        *old(trade_seq) + old(opposite).orders@.len() <= u64::MAX,
    ensures
        final(opposite).wf(),
        final(opposite).ascending == old(opposite).ascending,
        ids_within(final(opposite).orders@, old(opposite).orders@),
        *final(taker) == (BookOrder { size: final(taker).size, funds: final(taker).funds, ..*old(taker) }),
        ({
            let (tf, fills) = walk(*old(taker), old(opposite).orders@);
            &&& *final(taker) == tf
            &&& fills.len() <= old(opposite).orders@.len()
            &&& final(opposite).orders@ == remaining(fills) + old(opposite).orders@.skip(fills.len() as int)
            &&& *final(trade_seq) == *old(trade_seq) + fills.len()
            &&& logs@.len() <= 2 * fills.len()
            &&& logs_match(logs@, fills_logs(*old(taker), fills, *old(trade_seq) as int), *old(log_seq) as int, product_id@)
        }),
        *final(log_seq) == *old(log_seq) + logs@.len(),
{
    let ghost m0 = opposite.orders@;
    let ghost t0 = *taker;
    let ghost ls0 = *log_seq;
    let ghost ts0 = *trade_seq;
    let ghost mut fills: Seq<Fill> = Seq::empty();
    let mut logs: Vec<Log> = Vec::new();
    let mut cursor: usize = 0;
    assert(m0.skip(0) =~= m0);
    assert forall|i: int| 0 <= i < m0.len() implies #[trigger] holds_like(m0, m0[i]) by {
        assert(same_origin(m0[i], m0[i]));
    }
    assert(remaining(fills) + m0.skip(0) =~= m0);
    assert(fills + walk(t0, m0.skip(0)).1 =~= walk(t0, m0.skip(0)).1);
    while cursor < opposite.len() && !stops_at(taker, &opposite.orders[cursor])
        invariant
            opposite.wf(),
            opposite.ascending == old(opposite).ascending,
            m0 == old(opposite).orders@,
            ids_within(opposite.orders@, m0),
            t0 == *old(taker),
            ls0 == *old(log_seq),
            ts0 == *old(trade_seq),
            ls0 + 2 * m0.len() <= u64::MAX,
            ts0 + m0.len() <= u64::MAX,
            fills.len() <= m0.len(),
            opposite.orders@ == remaining(fills) + m0.skip(fills.len() as int),
            cursor == remaining(fills).len(),
            walk(t0, m0) == (
            walk(*taker, m0.skip(fills.len() as int)).0,
            fills + walk(*taker, m0.skip(fills.len() as int)).1,
            ),
            *taker == (BookOrder { size: taker.size, funds: taker.funds, ..t0 }),
            *trade_seq == ts0 + fills.len(),
            logs@.len() <= 2 * fills.len(),
            logs_match(logs@, fills_logs(t0, fills, ts0 as int), ls0 as int, product_id@),
            *log_seq == ls0 + logs@.len(),
        decreases m0.len() - fills.len(),
    {
        let ghost k = fills.len() as int;
        let ghost opp = opposite.orders@;
        let maker = opposite.orders[cursor];
        proof {
            lemma_remaining_len(fills);
            assert(maker == m0[k]);
            assert(m0.skip(k).drop_first() =~= m0.skip(k + 1));
        }
        let size = size_of_trade(taker, &maker);
        let ghost pre_taker = *taker;
        *taker = trade(taker, &maker, size);
        proof {
            lemma_trade_fits(pre_taker, maker);
        }
        let r = opposite.decr_size(maker.order_id, size);
        proof {
            lemma_ids_within_trans(opposite.orders@, opp, m0);
            assert(opp[cursor as int].order_id == maker.order_id);
            assert(opposite.orders@ == after_decrement(opp, cursor as int, size));
        }
        *trade_seq = *trade_seq + 1;
        *log_seq = *log_seq + 1;
        let ml = new_match_log(*log_seq, product_id, *trade_seq, taker, &maker, maker.price, size);
        logs.push(Log::Match(ml));
        let ghost f = Fill { maker, size };
        if maker.size == size {
            *log_seq = *log_seq + 1;
            let dl = new_done_log(*log_seq, product_id, &maker, 0, DoneReason::Filled);
            logs.push(Log::Done(dl));
        } else {
            cursor = cursor + 1;
        }
        proof {
            let nf = fills.push(f);
            assert(nf.drop_last() =~= fills);
            assert(nf.last() == f);
            if maker.size == size {
                assert(opposite.orders@ =~= remaining(nf) + m0.skip(k + 1));
            } else {
                assert(opposite.orders@ =~= remaining(nf) + m0.skip(k + 1));
            }
            let rest = walk(*taker, m0.skip(k + 1));
            assert(walk(pre_taker, m0.skip(k)) == (rest.0, seq![f] + rest.1));
            assert(fills + (seq![f] + rest.1) =~= nf + rest.1);
            let evs = fills_logs(t0, nf, ts0 as int);
            assert(evs == fills_logs(t0, fills, ts0 as int) + fill_logs(t0, f, (ts0 + nf.len()) as u64));
            assert forall|i: int| 0 <= i < logs@.len() implies #[trigger] logs@[i].event() == evs[i]
                && logs@[i].sequence() == ls0 + 1 + i && logs@[i].base().product_id@ == product_id@ by {
                if i < fills_logs(t0, fills, ts0 as int).len() {
                }
            }
            fills = nf;
        }
    }
    proof {
        lemma_remaining_len(fills);
        let k = fills.len() as int;
        if cursor < opposite.orders@.len() {
            assert(m0.skip(k)[0] == opposite.orders@[cursor as int]);
        } else {
            assert(m0.skip(k).len() == 0);
        }
        assert(fills + Seq::<Fill>::empty() =~= fills);
    }
    logs
}

/// Takes the order with id `id` off `depth`, returning it as it rested.
fn take_out(depth: &mut SideDepth, id: u64) -> (r: Option<BookOrder>)
    requires
        old(depth).wf(),
    ensures
        final(depth).wf(),
        final(depth).ascending == old(depth).ascending,
        ids_within(final(depth).orders@, old(depth).orders@),
        r.is_none() <==> !old(depth).has(id),
        r.is_none() ==> final(depth).orders@ == old(depth).orders@,
        !final(depth).has(id),
        r matches Some(o) ==> exists|i: int|
            0 <= i < old(depth).orders@.len() && old(depth).orders@[i] == o && o.order_id == id
                && final(depth).orders@ == old(depth).orders@.remove(i),
{
    match depth.find(id) {
        None => {
            proof {
                let s = depth.orders@;
                assert forall|a: int| 0 <= a < s.len() implies #[trigger] holds_like(s, s[a]) by {
                    assert(same_origin(s[a], s[a]));
                }
            }
            None
        },
        Some(i) => {
            let o = depth.orders[i];
            let ghost s = depth.orders@;
            let r = depth.decr_size(id, o.size);
            proof {
                assert(s[i as int].order_id == id);
                assert(after_decrement(s, i as int, o.size) == s.remove(i as int));
                let t = depth.orders@;
                assert forall|a: int| 0 <= a < t.len() implies #[trigger] t[a].order_id != id by {
                    let b = if a < i { a } else { a + 1 };
                    assert(t[a] == s[b]);
                    assert(s[b].order_id != s[i as int].order_id);
                }
            }
            Some(o)
        },
    }
}

/// The state of a book as one plain value.
#[derive(Debug)]
pub struct OrderBookSnapshot {
    pub product_id: String,
    /// The asks, best first, then the bids, best first.
    pub orders: Vec<BookOrder>,
    pub trade_seq: u64,
    pub log_seq: u64,
    pub order_id_window: Window,
}

/// Why a snapshot cannot be restored.
#[derive(Clone, Copy, Debug, PartialEq, Eq, Structural)]
pub enum RestoreError {
    /// The window is not well formed.
    InvalidWindow,
    /// An order has size zero.
    EmptyOrder,
    /// Two orders share an id.
    DuplicateOrder,
}

pub type SnapshotView = (Seq<char>, Seq<BookOrder>, u64, u64, (u64, u64, Seq<Option<u64>>));

impl View for OrderBookSnapshot {
    type V = SnapshotView;

    open spec fn view(&self) -> SnapshotView {
        (self.product_id@, self.orders@, self.trade_seq, self.log_seq, self.order_id_window@)
    }
}

/// A snapshot that a book can take up: a well-formed window, and orders of
/// positive size with distinct ids.
pub open spec fn valid_snapshot(v: SnapshotView) -> bool {
    &&& view_wf(v.4)
    &&& forall|i: int| 0 <= i < v.1.len() ==> (#[trigger] v.1[i]).size > 0
    &&& forall|i: int, j: int|
        0 <= i < v.1.len() && 0 <= j < v.1.len() && i != j ==> #[trigger] v.1[i].order_id != #[trigger] v.1[j].order_id
}

/// `s` is `n` sells best ask first, then buys best bid first: the layout that
/// a snapshot has.
pub open spec fn split_sorted(s: Seq<BookOrder>, n: int) -> bool {
    &&& 0 <= n <= s.len()
    &&& forall|i: int, j: int| 0 <= i < j < n ==> #[trigger] order_precedes(true, s[i], s[j])
    &&& forall|i: int, j: int| n <= i < j < s.len() ==> #[trigger] order_precedes(false, s[i], s[j])
    &&& forall|i: int| 0 <= i < n ==> (#[trigger] s[i]).side == Side::SideSell
    &&& forall|i: int| n <= i < s.len() ==> (#[trigger] s[i]).side == Side::SideBuy
}

fn copy_orders(src: &Vec<BookOrder>, dst: &mut Vec<BookOrder>)
    ensures
        final(dst)@ == old(dst)@ + src@,
{
    let ghost d0 = dst@;
    let mut i: usize = 0;
    while i < src.len()
        invariant
            i <= src@.len(),
            dst@ == d0 + src@.subrange(0, i as int),
        decreases src@.len() - i,
    {
        dst.push(src[i]);
        i = i + 1;
        assert(dst@ =~= d0 + src@.subrange(0, i as int));
    }
    assert(src@.subrange(0, i as int) =~= src@);
}

proof fn lemma_insert_contains(prev: Seq<BookOrder>, p: int, o: BookOrder)
    requires
        0 <= p <= prev.len(),
    ensures
        forall|x: BookOrder| #[trigger] prev.insert(p, o).contains(x) == (x == o || prev.contains(x)),
{
    let grown = prev.insert(p, o);
    assert forall|x: BookOrder| #[trigger] grown.contains(x) == (x == o || prev.contains(x)) by {
        if grown.contains(x) {
            let i = choose|i: int| 0 <= i < grown.len() && grown[i] == x;
            if i < p {
                assert(prev[i] == x);
            } else if i > p {
                assert(prev[i - 1] == x);
            }
        }
        if x == o {
            assert(grown[p] == o);
        }
        if prev.contains(x) {
            let j = choose|j: int| 0 <= j < prev.len() && prev[j] == x;
            if j < p {
                assert(grown[j] == x);
            } else {
                assert(grown[j + 1] == x);
            }
        }
    }
}

proof fn lemma_take_step_contains(s: Seq<BookOrder>, i: int)
    requires
        0 <= i < s.len(),
    ensures
        forall|x: BookOrder| #[trigger] s.take(i + 1).contains(x) == (s.take(i).contains(x) || x == s[i]),
{
    assert forall|x: BookOrder| #[trigger] s.take(i + 1).contains(x) == (s.take(i).contains(x) || x == s[i]) by {
        let t1 = s.take(i + 1);
        let t0 = s.take(i);
        if t1.contains(x) {
            let k = choose|k: int| 0 <= k < t1.len() && t1[k] == x;
            if k < i {
                assert(t0[k] == x);
            }
        }
        if t0.contains(x) {
            let k = choose|k: int| 0 <= k < t0.len() && t0[k] == x;
            assert(t1[k] == x);
        }
        if x == s[i] {
            assert(t1[i] == x);
        }
    }
}

/// After `o` joins `prev` at some place as `grown`, the facts the restore loop
/// keeps of one side carry over.
proof fn lemma_restore_step(
    prev: Seq<BookOrder>,
    grown: Seq<BookOrder>,
    other: Seq<BookOrder>,
    o: BookOrder,
    side: Side,
    src: Seq<BookOrder>,
    i: int,
)
    requires
        exists|p: int| 0 <= p <= prev.len() && grown == prev.insert(p, o),
        rests_on(prev, side),
        o.side == side,
        forall|j: int| 0 <= j < other.len() ==> (#[trigger] other[j]).order_id != o.order_id,
        forall|a: int, b: int| 0 <= a < prev.len() && 0 <= b < other.len() ==> #[trigger] prev[a].order_id != #[trigger] other[b].order_id,
        0 <= i < src.len(),
        src[i] == o,
        forall|j: int| 0 <= j < prev.len() ==> exists|a: int| 0 <= a < i && (#[trigger] prev[j]).order_id == src[a].order_id,
    ensures
        rests_on(grown, side),
        forall|a: int, b: int| 0 <= a < grown.len() && 0 <= b < other.len() ==> #[trigger] grown[a].order_id != #[trigger] other[b].order_id,
        forall|j: int| 0 <= j < grown.len() ==> exists|a: int| 0 <= a < i + 1 && (#[trigger] grown[j]).order_id == src[a].order_id,
        forall|id: u64| holds_id(prev, id) ==> holds_id(grown, id),
        holds_id(grown, o.order_id),
{
    let p = choose|p: int| 0 <= p <= prev.len() && grown == prev.insert(p, o);
    lemma_insert_contains(prev, p, o);
    assert forall|j: int| 0 <= j < grown.len() implies grown[j] == o || exists|k: int| 0 <= k < prev.len() && prev[k] == grown[j] by {
        assert(grown.contains(grown[j]));
    }
    assert forall|j: int| 0 <= j < grown.len() implies (#[trigger] grown[j]).side == side by {
        assert(grown.contains(grown[j]));
        if grown[j] != o {
            let k = choose|k: int| 0 <= k < prev.len() && prev[k] == grown[j];
            assert(prev[k].side == side);
        }
    }
    assert forall|a: int, b: int| 0 <= a < grown.len() && 0 <= b < other.len() implies #[trigger] grown[a].order_id != #[trigger] other[b].order_id by {
        assert(grown.contains(grown[a]));
        if grown[a] != o {
            let k = choose|k: int| 0 <= k < prev.len() && prev[k] == grown[a];
            assert(prev[k].order_id != other[b].order_id);
        }
    }
    assert forall|j: int| 0 <= j < grown.len() implies exists|a: int| 0 <= a < i + 1 && (#[trigger] grown[j]).order_id == src[a].order_id by {
        assert(grown.contains(grown[j]));
        if grown[j] != o {
            let k = choose|k: int| 0 <= k < prev.len() && prev[k] == grown[j];
            let a = choose|a: int| 0 <= a < i && (#[trigger] prev[k]).order_id == src[a].order_id;
            assert(grown[j].order_id == src[a].order_id);
        } else {
            assert(grown[j].order_id == src[i].order_id);
        }
    }
    assert forall|id: u64| holds_id(prev, id) implies holds_id(grown, id) by {
        let k = choose|k: int| 0 <= k < prev.len() && #[trigger] prev[k].order_id == id;
        assert(grown.contains(prev[k]));
        let j = choose|j: int| 0 <= j < grown.len() && grown[j] == prev[k];
        assert(grown[j].order_id == id);
    }
    assert(grown.contains(o));
    let j = choose|j: int| 0 <= j < grown.len() && grown[j] == o;
    assert(grown[j].order_id == o.order_id);
}

/// Every order of `s` has side `side`.
pub open spec fn rests_on(s: Seq<BookOrder>, side: Side) -> bool {
    forall|i: int| 0 <= i < s.len() ==> (#[trigger] s[i]).side == side
}

/// No id rests on both sides.
pub open spec fn disjoint(a: Seq<BookOrder>, b: Seq<BookOrder>) -> bool {
    forall|i: int, j: int| 0 <= i < a.len() && 0 <= j < b.len() ==> #[trigger] a[i].order_id != #[trigger] b[j].order_id
}

proof fn lemma_sides_after(
    opp0: Seq<BookOrder>,
    opp1: Seq<BookOrder>,
    own0: Seq<BookOrder>,
    own1: Seq<BookOrder>,
    tf: BookOrder,
    opp_side: Side,
    own_side: Side,
)
    requires
        ids_within(opp1, opp0),
        rests_on(opp0, opp_side),
        rests_on(own0, own_side),
        disjoint(opp0, own0),
        forall|j: int| 0 <= j < opp0.len() ==> (#[trigger] opp0[j]).order_id != tf.order_id,
        tf.side == own_side,
        own1 == own0 || exists|p: int| 0 <= p <= own0.len() && own1 == own0.insert(p, tf),
    ensures
        rests_on(opp1, opp_side),
        rests_on(own1, own_side),
        disjoint(opp1, own1),
        disjoint(own1, opp1),
{
    assert forall|i: int| 0 <= i < opp1.len() implies (#[trigger] opp1[i]).side == opp_side by {
        assert(holds_like(opp0, opp1[i]));
        let j = choose|j: int| 0 <= j < opp0.len() && same_origin(#[trigger] opp0[j], opp1[i]);
        assert(opp0[j].side == opp_side);
    }
    // every order of own1 is tf or an order of own0
    assert forall|i: int| 0 <= i < own1.len() implies #[trigger] own1[i] == tf || exists|j: int|
        0 <= j < own0.len() && own0[j] == own1[i] by {
        if own1 == own0 {
            assert(own0[i] == own1[i]);
        } else {
            let p = choose|p: int| 0 <= p <= own0.len() && own1 == own0.insert(p, tf);
            if i < p {
                assert(own0[i] == own1[i]);
            } else if i > p {
                assert(own0[i - 1] == own1[i]);
            }
        }
    }
    assert forall|i: int| 0 <= i < own1.len() implies (#[trigger] own1[i]).side == own_side by {
        if own1[i] != tf {
            let j = choose|j: int| 0 <= j < own0.len() && own0[j] == own1[i];
            assert(own0[j].side == own_side);
        }
    }
    assert forall|i: int, j: int| 0 <= i < opp1.len() && 0 <= j < own1.len() implies #[trigger] opp1[i].order_id
        != #[trigger] own1[j].order_id by {
        assert(holds_like(opp0, opp1[i]));
        let a = choose|a: int| 0 <= a < opp0.len() && same_origin(#[trigger] opp0[a], opp1[i]);
        assert(opp0[a].order_id != tf.order_id);
        if own1[j] != tf {
            let b = choose|b: int| 0 <= b < own0.len() && own0[b] == own1[j];
            assert(opp0[a].order_id != own0[b].order_id);
        }
    }
}

/// The book of one product: asks rest sell orders lowest price first, bids
/// rest buy orders highest price first.
#[derive(Debug)]
pub struct OrderBook {
    pub product: Product,
    pub ask_depths: SideDepth,
    pub bid_depths: SideDepth,
    pub trade_seq: u64,
    pub log_seq: u64,
    pub order_id_window: Window,
}

impl OrderBook {
    pub open spec fn wf(&self) -> bool {
        &&& self.ask_depths.wf()
        &&& self.ask_depths.ascending
        &&& self.bid_depths.wf()
        &&& !self.bid_depths.ascending
        &&& self.order_id_window.wf()
        &&& rests_on(self.ask_depths.orders@, Side::SideSell)
        &&& rests_on(self.bid_depths.orders@, Side::SideBuy)
        &&& disjoint(self.ask_depths.orders@, self.bid_depths.orders@)
    }

    /// The side a taker of side `side` walks: asks for a buy, bids for a sell.
    pub open spec fn opposite(&self, side: Side) -> SideDepth {
        if side == Side::SideBuy {
            self.ask_depths
        } else {
            self.bid_depths
        }
    }

    /// The side an order of side `side` rests on.
    pub open spec fn own(&self, side: Side) -> SideDepth {
        if side == Side::SideBuy {
            self.bid_depths
        } else {
            self.ask_depths
        }
    }

    /// Number of resting orders on both sides.
    pub open spec fn resting(&self) -> nat {
        self.ask_depths.orders@.len() + self.bid_depths.orders@.len()
    }

    /// The counters leave room for one more order against the whole book.
    pub open spec fn has_room(&self) -> bool {
        &&& self.log_seq + 2 * self.resting() + 1 <= u64::MAX
        &&& self.trade_seq + self.resting() <= u64::MAX
    }

    /// `post` and `logs` are what applying `order` to `self` gives, when the
    /// window accepts its id.
    pub open spec fn applied(&self, post: OrderBook, order: Order, logs: Seq<Log>) -> bool {
        !self.order_id_window.rejects(order.id) ==> ({
            let t0 = taker_of(order);
            let opp = self.opposite(order.side).orders@;
            let own = self.own(order.side).orders@;
            let (tf, fills) = walk(t0, opp);
            &&& post.order_id_window.accepted(self.order_id_window, order.id)
            &&& post.opposite(order.side).orders@ == remaining(fills) + opp.skip(fills.len() as int)
            &&& rests(tf) ==> exists|p: int| 0 <= p <= own.len() && post.own(order.side).orders@ == own.insert(p, tf)
            &&& !rests(tf) ==> post.own(order.side).orders@ == own
            &&& post.trade_seq == self.trade_seq + fills.len()
            &&& post.log_seq == self.log_seq + logs.len()
            &&& logs_match(
                logs,
                fills_logs(t0, fills, self.trade_seq as int).push(taker_log(tf)),
                self.log_seq as int,
                self.product.id@,
            )
        })
    }

    /// Brings `order` to the book. An id that the window refuses changes
    /// nothing and yields no logs. Otherwise the taker walks the opposite
    /// side, a limit taker with size left rests on its own side, and the logs
    /// are the walk's trades followed by the taker's open or done log.
    pub fn apply_order(&mut self, order: &Order) -> (logs: Vec<Log>)
        requires
            old(self).wf(),
            old(self).has_room(),
            !old(self).order_id_window.rejects(order.id) ==> !old(self).ask_depths.has(order.id)
                && !old(self).bid_depths.has(order.id),
        ensures
            final(self).wf(),
            final(self).product == old(self).product,
            final(self).order_id_window.rejects(order.id),
            old(self).order_id_window.rejects(order.id) ==> logs@.len() == 0 && *final(self) == *old(self),
            old(self).applied(*final(self), *order, logs@),
    {
        let ghost b0 = *self;
        match self.order_id_window.put(order.id) {
            Some(_) => {
                return Vec::new();
            },
            None => {},
        }
        let mut taker = BookOrder::new_book_order(order);
        if taker.order_type == OrderType::OrderTypeMarket {
            taker.price = if taker.side == Side::SideBuy {
                u64::MAX
            } else {
                0
            };
        }
        let ghost t0 = taker;
        let mut logs = if order.side == Side::SideBuy {
            match_taker(
                &mut self.ask_depths,
                &mut taker,
                &mut self.log_seq,
                &mut self.trade_seq,
                self.product.id.as_str(),
            )
        } else {
            match_taker(
                &mut self.bid_depths,
                &mut taker,
                &mut self.log_seq,
                &mut self.trade_seq,
                self.product.id.as_str(),
            )
        };
        let ghost opp0 = b0.opposite(order.side).orders@;
        let ghost own0 = b0.own(order.side).orders@;
        proof {
            assert(t0 == taker_of(*order));
            assert forall|i: int| 0 <= i < own0.len() implies (#[trigger] own0[i]).order_id != t0.order_id by {
                if own0[i].order_id == t0.order_id {
                    assert(holds_id(own0, order.id));
                }
            }
            assert forall|i: int| 0 <= i < opp0.len() implies (#[trigger] opp0[i]).order_id != t0.order_id by {
                if opp0[i].order_id == t0.order_id {
                    assert(holds_id(opp0, order.id));
                }
            }
        }
        let ghost mid = *self;
        if taker.order_type == OrderType::OrderTypeLimit && taker.size > 0 {
            if order.side == Side::SideBuy {
                self.bid_depths.add(taker);
            } else {
                self.ask_depths.add(taker);
            }
            let seq = self.next_log_seq();
            let ol = new_open_log(seq, self.product.id.as_str(), &taker);
            logs.push(Log::Open(ol));
        } else {
            let seq = self.next_log_seq();
            let dl = if taker.order_type == OrderType::OrderTypeLimit {
                new_done_log(seq, self.product.id.as_str(), &taker, taker.size, DoneReason::Filled)
            } else {
                let left = match taker.side {
                    Side::SideBuy => taker.funds > 0,
                    Side::SideSell => taker.size > 0,
                };
                let reason = if left {
                    DoneReason::Cancelled
                } else {
                    DoneReason::Filled
                };
                let closed = BookOrder { price: 0, ..taker };
                new_done_log(seq, self.product.id.as_str(), &closed, 0, reason)
            };
            logs.push(Log::Done(dl));
        }
        proof {
            let opp1 = self.opposite(order.side).orders@;
            let own1 = self.own(order.side).orders@;
            let opp_side = if order.side == Side::SideBuy { Side::SideSell } else { Side::SideBuy };
            lemma_sides_after(
                opp0,
                opp1,
                own0,
                own1,
                taker,
                opp_side,
                order.side,
            );
            let evs = fills_logs(t0, walk(t0, opp0).1, b0.trade_seq as int).push(taker_log(taker));
            assert forall|i: int| 0 <= i < logs@.len() implies #[trigger] logs@[i].event() == evs[i]
                && logs@[i].sequence() == b0.log_seq + 1 + i && logs@[i].base().product_id@ == b0.product.id@ by {
                if i < logs@.len() - 1 {
                }
            }
        }
        logs
    }

    /// Cancels the resting order with the id of `order`, looked up on the side
    /// opposite to `order.side`. Records the id in the window whatever it
    /// says. A found order leaves the book with one cancelled done log of
    /// remaining size zero; an unknown id yields no logs.
    pub fn cancel_order(&mut self, order: &Order) -> (logs: Vec<DoneLog>)
        requires
            old(self).wf(),
            old(self).log_seq < u64::MAX,
        ensures
            final(self).wf(),
            final(self).product == old(self).product,
            final(self).trade_seq == old(self).trade_seq,
            final(self).order_id_window.rejects(order.id),
            old(self).order_id_window.rejects(order.id) ==> final(self).order_id_window
                == old(self).order_id_window,
            !old(self).order_id_window.rejects(order.id) ==> final(self).order_id_window.accepted(
                old(self).order_id_window,
                order.id,
            ),
            final(self).own(order.side) == old(self).own(order.side),
            !final(self).opposite(order.side).has(order.id),
            !old(self).opposite(order.side).has(order.id) ==> logs@.len() == 0 && final(self).log_seq
                == old(self).log_seq && final(self).opposite(order.side).orders@ == old(self).opposite(order.side).orders@,
            old(self).opposite(order.side).has(order.id) ==> exists|i: int|
                0 <= i < old(self).opposite(order.side).orders@.len()
                    && old(self).opposite(order.side).orders@[i].order_id == order.id
                    && final(self).opposite(order.side).orders@ == old(self).opposite(order.side).orders@.remove(i)
                    && logs@.len() == 1
                    && logs@[0].event() == done_event(old(self).opposite(order.side).orders@[i], 0, DoneReason::Cancelled)
                    && logs@[0].base.sequence == old(self).log_seq + 1
                    && logs@[0].base.product_id@ == old(self).product.id@
                    && final(self).log_seq == old(self).log_seq + 1,
    {
        let ghost b0 = *self;
        let _ = self.order_id_window.put(order.id);
        let found = if order.side == Side::SideBuy {
            take_out(&mut self.ask_depths, order.id)
        } else {
            take_out(&mut self.bid_depths, order.id)
        };
        let mut logs: Vec<DoneLog> = Vec::new();
        proof {
            let opp1 = self.opposite(order.side).orders@;
            let own = self.own(order.side).orders@;
            let opp0 = b0.opposite(order.side).orders@;
            assert forall|i: int| 0 <= i < opp1.len() implies (#[trigger] opp1[i]).side == (if order.side
                == Side::SideBuy {
                Side::SideSell
            } else {
                Side::SideBuy
            }) by {
                assert(holds_like(opp0, opp1[i]));
                let j = choose|j: int| 0 <= j < opp0.len() && same_origin(#[trigger] opp0[j], opp1[i]);
                assert(opp0[j].side == opp1[i].side);
            }
            assert forall|i: int| 0 <= i < own.len() implies (#[trigger] own[i]).side == order.side by {
                assert(own[i] == b0.own(order.side).orders@[i]);
            }
            assert forall|i: int, j: int| 0 <= i < opp1.len() && 0 <= j < own.len() implies #[trigger] opp1[i].order_id
                != #[trigger] own[j].order_id by {
                assert(holds_like(opp0, opp1[i]));
                let a = choose|a: int| 0 <= a < opp0.len() && same_origin(#[trigger] opp0[a], opp1[i]);
                if order.side == Side::SideBuy {
                    assert(opp0[a].order_id != own[j].order_id);
                } else {
                    assert(own[j].order_id != opp0[a].order_id);
                }
            }
        }
        match found {
            Some(o) => {
                let seq = self.next_log_seq();
                let dl = new_done_log(seq, self.product.id.as_str(), &o, 0, DoneReason::Cancelled);
                logs.push(dl);
            },
            None => {},
        }
        logs
    }

    /// Closes `order` without looking it up: one cancelled done log carrying
    /// the order's own size. Only the window and the log counter change.
    pub fn nullify_order(&mut self, order: &Order) -> (logs: Vec<DoneLog>)
        requires
            old(self).wf(),
            old(self).log_seq < u64::MAX,
        ensures
            final(self).wf(),
            final(self).product == old(self).product,
            final(self).ask_depths == old(self).ask_depths,
            final(self).bid_depths == old(self).bid_depths,
            final(self).trade_seq == old(self).trade_seq,
            final(self).log_seq == old(self).log_seq + 1,
            final(self).order_id_window.rejects(order.id),
            old(self).order_id_window.rejects(order.id) ==> final(self).order_id_window
                == old(self).order_id_window,
            !old(self).order_id_window.rejects(order.id) ==> final(self).order_id_window.accepted(
                old(self).order_id_window,
                order.id,
            ),
            logs@.len() == 1,
            logs@[0].event() == done_event(book_order_of(*order), order.size, DoneReason::Cancelled),
            logs@[0].base.sequence == old(self).log_seq + 1,
            logs@[0].base.product_id@ == old(self).product.id@,
    {
        let ghost b0 = *self;
        let _ = self.order_id_window.put(order.id);
        let mut logs: Vec<DoneLog> = Vec::new();
        let book_order = BookOrder::new_book_order(order);
        let seq = self.next_log_seq();
        let dl = new_done_log(seq, self.product.id.as_str(), &book_order, order.size, DoneReason::Cancelled);
        logs.push(dl);
        logs
    }

    /// The taker of `order` would not trade at all: the opposite side is
    /// empty or its head lies beyond the taker's price.
    pub fn is_order_will_not_match(&self, order: &Order) -> (r: bool)
        requires
            self.wf(),
        ensures
            r == (self.opposite(order.side).orders@.len() == 0 || !crosses(
                taker_of(*order),
                self.opposite(order.side).orders@[0],
            )),
    {
        let mut taker = BookOrder::new_book_order(order);
        if taker.order_type == OrderType::OrderTypeMarket {
            taker.price = if taker.side == Side::SideBuy {
                u64::MAX
            } else {
                0
            };
        }
        let head = if order.side == Side::SideBuy {
            self.ask_depths.best()
        } else {
            self.bid_depths.best()
        };
        match head {
            None => true,
            Some(maker) => match taker.side {
                Side::SideBuy => taker.price < maker.price,
                Side::SideSell => taker.price > maker.price,
            },
        }
    }

    /// The taker of `order` would leave nothing to rest: a market order, or
    /// a limit order whose walk of the opposite side takes all its size.
    pub fn is_order_will_full_match(&self, order: &Order) -> (r: bool)
        requires
            self.wf(),
        ensures
            r == (order.order_type == OrderType::OrderTypeMarket || walk(
                taker_of(*order),
                self.opposite(order.side).orders@,
            ).0.size == 0),
    {
        let mut taker = BookOrder::new_book_order(order);
        if taker.order_type == OrderType::OrderTypeMarket {
            taker.price = if taker.side == Side::SideBuy {
                u64::MAX
            } else {
                0
            };
        }
        let makers = if order.side == Side::SideBuy {
            &self.ask_depths.orders
        } else {
            &self.bid_depths.orders
        };
        let ghost m0 = makers@;
        let ghost t0 = taker;
        let mut k: usize = 0;
        assert(m0.skip(0) =~= m0);
        while k < makers.len() && !stops_at(&taker, &makers[k])
            invariant
                k <= m0.len(),
                makers@ == m0,
                walk(t0, m0).0 == walk(taker, m0.skip(k as int)).0,
                taker == (BookOrder { size: taker.size, funds: taker.funds, ..t0 }),
            decreases m0.len() - k,
        {
            let maker = makers[k];
            let size = size_of_trade(&taker, &maker);
            proof {
                assert(m0.skip(k as int).drop_first() =~= m0.skip(k + 1));
                assert(m0.skip(k as int)[0] == maker);
            }
            taker = trade(&taker, &maker, size);
            k = k + 1;
        }
        proof {
            if k < m0.len() {
                assert(m0.skip(k as int)[0] == m0[k as int]);
            }
        }
        match taker.order_type {
            OrderType::OrderTypeLimit => taker.size == 0,
            OrderType::OrderTypeMarket => true,
        }
    }

    /// The book as a snapshot value.
    pub open spec fn snapshot_view(&self) -> SnapshotView {
        (
            self.product.id@,
            self.ask_depths.orders@ + self.bid_depths.orders@,
            self.trade_seq,
            self.log_seq,
            self.order_id_window@,
        )
    }

    pub fn snapshot(&self) -> (r: OrderBookSnapshot)
        requires
            self.wf(),
        ensures
            r@ == self.snapshot_view(),
    {
        let mut orders: Vec<BookOrder> = Vec::new();
        copy_orders(&self.ask_depths.orders, &mut orders);
        copy_orders(&self.bid_depths.orders, &mut orders);
        assert(orders@ =~= self.ask_depths.orders@ + self.bid_depths.orders@);
        OrderBookSnapshot {
            product_id: self.product.id.clone(),
            orders,
            trade_seq: self.trade_seq,
            log_seq: self.log_seq,
            order_id_window: self.order_id_window.copy(),
        }
    }

    /// Replaces the book's state by `snapshot`: each order goes through
    /// `add` on the side it belongs to, and the product id, the counters and
    /// the window are taken as they are. A snapshot with a malformed window,
    /// an empty order or a repeated id leaves the book as it was. Restoring a snapshot laid out as `snapshot` makes one gives back
    /// the very same snapshot.
    pub fn restore(&mut self, snapshot: &OrderBookSnapshot) -> (r: Result<(), RestoreError>)
        requires
            old(self).wf(),
        ensures
            r.is_ok() == valid_snapshot(snapshot@),
            r.is_err() ==> *final(self) == *old(self),
            r.is_ok() ==> final(self).wf(),
            r.is_ok() ==> final(self).product.id == snapshot.product_id && final(self).product.base_scale
                == old(self).product.base_scale,
            r.is_ok() ==> final(self).trade_seq == snapshot.trade_seq && final(self).log_seq
                == snapshot.log_seq && final(self).order_id_window@ == snapshot.order_id_window@,
            r.is_ok() ==> forall|x: BookOrder| #[trigger] final(self).ask_depths.orders@.contains(x) == (
            snapshot.orders@.contains(x) && x.side == Side::SideSell),
            r.is_ok() ==> forall|x: BookOrder| #[trigger] final(self).bid_depths.orders@.contains(x) == (
            snapshot.orders@.contains(x) && x.side == Side::SideBuy),
            r.is_ok() ==> forall|n: int| #[trigger]
                split_sorted(snapshot.orders@, n) ==> final(self).snapshot_view() == snapshot@,
    {
        let s = &snapshot.orders;
        let w = &snapshot.order_id_window;
        if !w.check() {
            return Err(RestoreError::InvalidWindow);
        }
        let ghost canon = exists|n: int| split_sorted(s@, n);
        let ghost n: int = if canon {
            choose|n: int| split_sorted(s@, n)
        } else {
            0
        };
        let mut asks = SideDepth::new(true);
        let mut bids = SideDepth::new(false);
        let mut i: usize = 0;
        while i < s.len()
            invariant
                w.wf(),
                s@ == snapshot.orders@,
                *w == snapshot.order_id_window,
                i <= s@.len(),
                asks.wf(),
                asks.ascending,
                bids.wf(),
                !bids.ascending,
                rests_on(asks.orders@, Side::SideSell),
                rests_on(bids.orders@, Side::SideBuy),
                disjoint(asks.orders@, bids.orders@),
                forall|j: int| 0 <= j < i ==> (#[trigger] s@[j]).size > 0,
                forall|a: int, b: int|
                    0 <= a < i && 0 <= b < i && a != b ==> #[trigger] s@[a].order_id != #[trigger] s@[b].order_id,
                forall|j: int| 0 <= j < i ==> holds_id(asks.orders@, (#[trigger] s@[j]).order_id) || holds_id(
                    bids.orders@,
                    s@[j].order_id,
                ),
                forall|j: int| 0 <= j < asks.orders@.len() ==> exists|a: int|
                    0 <= a < i && (#[trigger] asks.orders@[j]).order_id == s@[a].order_id,
                forall|j: int| 0 <= j < bids.orders@.len() ==> exists|a: int|
                    0 <= a < i && (#[trigger] bids.orders@[j]).order_id == s@[a].order_id,
                canon ==> split_sorted(s@, n),
                forall|x: BookOrder| #[trigger] asks.orders@.contains(x) == (s@.take(i as int).contains(x) && x.side
                    == Side::SideSell),
                forall|x: BookOrder| #[trigger] bids.orders@.contains(x) == (s@.take(i as int).contains(x) && x.side
                    == Side::SideBuy),
                canon && i <= n ==> asks.orders@ == s@.take(i as int) && bids.orders@.len() == 0,
                canon && i > n ==> asks.orders@ == s@.take(n) && bids.orders@ == s@.subrange(n, i as int),
            decreases s@.len() - i,
        {
            let o = s[i];
            if o.size == 0 {
                assert((s@[i as int]).size == 0);
                return Err(RestoreError::EmptyOrder);
            }
            let in_asks = asks.find(o.order_id);
            let in_bids = bids.find(o.order_id);
            if in_asks.is_some() || in_bids.is_some() {
                proof {
                    if asks.has(o.order_id) {
                        let j = choose|j: int| 0 <= j < asks.orders@.len() && #[trigger] asks.orders@[j].order_id == o.order_id;
                        let a = choose|a: int| 0 <= a < i && (#[trigger] asks.orders@[j]).order_id == s@[a].order_id;
                        assert(s@[a].order_id == s@[i as int].order_id);
                    } else {
                        let j = choose|j: int| 0 <= j < bids.orders@.len() && #[trigger] bids.orders@[j].order_id == o.order_id;
                        let a = choose|a: int| 0 <= a < i && (#[trigger] bids.orders@[j]).order_id == s@[a].order_id;
                        assert(s@[a].order_id == s@[i as int].order_id);
                    }
                }
                return Err(RestoreError::DuplicateOrder);
            }
            let ghost a0 = asks.orders@;
            let ghost b0 = bids.orders@;
            proof {
                if canon {
                    if i < n {
                        assert forall|j: int| 0 <= j < a0.len() implies order_precedes(true, #[trigger] a0[j], o) by {
                            assert(a0[j] == s@[j]);
                        }
                    } else {
                        assert forall|j: int| 0 <= j < b0.len() implies order_precedes(false, #[trigger] b0[j], o) by {
                            assert(b0[j] == s@[n + j]);
                        }
                    }
                }
            }
            proof {
                assert forall|j: int| 0 <= j < a0.len() implies (#[trigger] a0[j]).order_id != o.order_id by {
                    if a0[j].order_id == o.order_id {
                        assert(asks.has(o.order_id));
                    }
                }
                assert forall|j: int| 0 <= j < b0.len() implies (#[trigger] b0[j]).order_id != o.order_id by {
                    if b0[j].order_id == o.order_id {
                        assert(bids.has(o.order_id));
                    }
                }
                assert forall|a: int, b: int| 0 <= a < b0.len() && 0 <= b < a0.len() implies #[trigger] b0[a].order_id
                    != #[trigger] a0[b].order_id by {
                    assert(a0[b].order_id != b0[a].order_id);
                }
                assert forall|a: int| 0 <= a < i implies #[trigger] s@[a].order_id != o.order_id by {
                    if holds_id(a0, s@[a].order_id) {
                        let j = choose|j: int| 0 <= j < a0.len() && #[trigger] a0[j].order_id == s@[a].order_id;
                    } else {
                        let j = choose|j: int| 0 <= j < b0.len() && #[trigger] b0[j].order_id == s@[a].order_id;
                    }
                }
            }
            proof {
                lemma_take_step_contains(s@, i as int);
            }
            if o.side == Side::SideSell {
                asks.add(o);
                proof {
                    let p = choose|p: int| 0 <= p <= a0.len() && asks.orders@ == a0.insert(p, o);
                    lemma_insert_contains(a0, p, o);
                    lemma_restore_step(a0, asks.orders@, b0, o, Side::SideSell, s@, i as int);
                    if canon && i < n {
                        assert(asks.orders@ =~= s@.take(i + 1));
                    }
                }
            } else {
                bids.add(o);
                proof {
                    let p = choose|p: int| 0 <= p <= b0.len() && bids.orders@ == b0.insert(p, o);
                    lemma_insert_contains(b0, p, o);
                    lemma_restore_step(b0, bids.orders@, a0, o, Side::SideBuy, s@, i as int);
                    if canon {
                        assert(i >= n);
                        assert(bids.orders@ =~= s@.subrange(n, i + 1));
                    }
                }
            }
            i = i + 1;
        }
        proof {
            assert(s@.take(s@.len() as int) =~= s@);
            if canon {
                assert(s@.take(n) + s@.subrange(n, s@.len() as int) =~= s@);
                if s@.len() <= n {
                    assert(s@.take(s@.len() as int) =~= s@);
                }
            }
        }
        self.ask_depths = asks;
        self.bid_depths = bids;
        self.trade_seq = snapshot.trade_seq;
        self.log_seq = snapshot.log_seq;
        self.order_id_window = w.copy();
        self.product.id = snapshot.product_id.clone();
        Ok(())
    }

    pub fn new_order_book(product: &Product) -> (r: OrderBook)
        ensures
            r.wf(),
            r.product == *product,
            r.ask_depths.orders@.len() == 0,
            r.bid_depths.orders@.len() == 0,
            r.trade_seq == 0,
            r.log_seq == 0,
            r.order_id_window.max == 0,
            r.order_id_window.cap == ORDER_ID_WINDOW_CAP,
            forall|id: u64| !#[trigger] r.order_id_window.seen(id),
            r.order_id_window.slots@ == Seq::new(ORDER_ID_WINDOW_CAP as nat, |j: int| None::<u64>),
    {
        OrderBook {
            product: product.copy(),
            ask_depths: SideDepth::new(true),
            bid_depths: SideDepth::new(false),
            trade_seq: 0,
            log_seq: 0,
            order_id_window: Window::new(0, ORDER_ID_WINDOW_CAP),
        }
    }

    pub fn next_log_seq(&mut self) -> (r: u64)
        requires
            old(self).log_seq < u64::MAX,
        ensures
            r == old(self).log_seq + 1,
            *final(self) == (OrderBook { log_seq: r, ..*old(self) }),
    {
        self.log_seq = self.log_seq + 1;
        self.log_seq
    }

    pub fn next_trade_seq(&mut self) -> (r: u64)
        requires
            old(self).trade_seq < u64::MAX,
        ensures
            r == old(self).trade_seq + 1,
            *final(self) == (OrderBook { trade_seq: r, ..*old(self) }),
    {
        self.trade_seq = self.trade_seq + 1;
        self.trade_seq
    }
}

/// Sum of the sizes traded.
pub open spec fn total_size(fills: Seq<Fill>) -> int
    decreases fills.len(),
{
    if fills.len() == 0 {
        0
    } else {
        total_size(fills.drop_last()) + fills.last().size
    }
}

/// Sum of what the trades cost: size times the maker's price.
pub open spec fn total_cost(fills: Seq<Fill>) -> int
    decreases fills.len(),
{
    if fills.len() == 0 {
        0
    } else {
        total_cost(fills.drop_last()) + fills.last().size * fills.last().maker.price
    }
}

proof fn lemma_totals_prepend(f: Fill, rest: Seq<Fill>)
    ensures
        total_size(seq![f] + rest) == f.size + total_size(rest),
        total_cost(seq![f] + rest) == f.size * f.maker.price + total_cost(rest),
    decreases rest.len(),
{
    let all = seq![f] + rest;
    if rest.len() == 0 {
        assert(all.drop_last() =~= Seq::<Fill>::empty());
        assert(all.last() == f);
        assert(total_size(Seq::<Fill>::empty()) == 0);
        assert(total_cost(Seq::<Fill>::empty()) == 0);
        assert(total_size(all) == total_size(all.drop_last()) + all.last().size);
        assert(total_cost(all) == total_cost(all.drop_last()) + all.last().size * all.last().maker.price);
    } else {
        lemma_totals_prepend(f, rest.drop_last());
        assert(all.drop_last() =~= seq![f] + rest.drop_last());
        assert(all.last() == rest.last());
        assert(total_size(all) == total_size(all.drop_last()) + all.last().size);
        assert(total_cost(all) == total_cost(all.drop_last()) + all.last().size * all.last().maker.price);
        assert(total_size(rest) == total_size(rest.drop_last()) + rest.last().size);
        assert(total_cost(rest) == total_cost(rest.drop_last()) + rest.last().size * rest.last().maker.price);
    }
}

/// Sum of the sizes of the match events in `evs`.
pub open spec fn matched_size(evs: Seq<LogEvent>) -> int
    decreases evs.len(),
{
    if evs.len() == 0 {
        0
    } else {
        matched_size(evs.drop_last()) + match evs.last() {
            LogEvent::Match { size, .. } => size as int,
            _ => 0,
        }
    }
}

/// Sum of size times price over the match events in `evs`.
pub open spec fn matched_cost(evs: Seq<LogEvent>) -> int
    decreases evs.len(),
{
    if evs.len() == 0 {
        0
    } else {
        matched_cost(evs.drop_last()) + match evs.last() {
            LogEvent::Match { size, price, .. } => size * price,
            _ => 0,
        }
    }
}

proof fn lemma_matched_append(a: Seq<LogEvent>, b: Seq<LogEvent>)
    ensures
        matched_size(a + b) == matched_size(a) + matched_size(b),
        matched_cost(a + b) == matched_cost(a) + matched_cost(b),
    decreases b.len(),
{
    if b.len() == 0 {
        assert(a + b =~= a);
    } else {
        lemma_matched_append(a, b.drop_last());
        assert((a + b).drop_last() =~= a + b.drop_last());
    }
}

proof fn lemma_matched_fills(t: BookOrder, fills: Seq<Fill>, trade_seq: int)
    ensures
        matched_size(fills_logs(t, fills, trade_seq)) == total_size(fills),
        matched_cost(fills_logs(t, fills, trade_seq)) == total_cost(fills),
    decreases fills.len(),
{
    if fills.len() > 0 {
        let f = fills.last();
        let one = fill_logs(t, f, (trade_seq + fills.len()) as u64);
        lemma_matched_fills(t, fills.drop_last(), trade_seq);
        lemma_matched_append(fills_logs(t, fills.drop_last(), trade_seq), one);
        assert(fills_logs(t, fills, trade_seq) == fills_logs(t, fills.drop_last(), trade_seq) + one);
        let m = one[0];
        assert(m == match_event((trade_seq + fills.len()) as u64, t, f.maker, f.maker.price, f.size));
        let single = seq![m];
        assert(matched_size(Seq::<LogEvent>::empty()) == 0);
        assert(matched_cost(Seq::<LogEvent>::empty()) == 0);
        assert(single.drop_last() =~= Seq::<LogEvent>::empty());
        assert(single.last() == m);
        assert(matched_size(single) == f.size);
        assert(matched_cost(single) == f.size * f.maker.price);
        if f.maker.size == f.size {
            assert(one.drop_last() =~= single);
            assert(one.last() == one[1]);
        } else {
            assert(one =~= single);
        }
    }
}

proof fn lemma_walk_spends(t: BookOrder, makers: Seq<BookOrder>, floor_price: u64)
    requires
        forall|i: int| 0 <= i < makers.len() ==> floor_price <= (#[trigger] makers[i]).price,
    ensures
        ({
            let (tf, fills) = walk(t, makers);
            &&& is_market_buy(t) ==> total_size(fills) * floor_price + tf.funds <= t.funds
            &&& is_market_buy(t) ==> total_cost(fills) + tf.funds == t.funds
            &&& !is_market_buy(t) ==> total_size(fills) + tf.size == t.size
            &&& is_market_buy(tf) == is_market_buy(t)
        }),
    decreases makers.len(),
{
    if makers.len() > 0 && !stops_before(t, makers[0]) {
        let m = makers[0];
        let size = trade_size(t, m);
        let t1 = after_trade(t, m, size);
        let rest = makers.drop_first();
        lemma_trade_fits(t, m);
        lemma_walk_spends(t1, rest, floor_price);
        let (tf, fills) = walk(t, makers);
        let r = walk(t1, rest);
        assert(fills == seq![Fill { maker: m, size }] + r.1);
        lemma_totals_prepend(Fill { maker: m, size }, r.1);
        if is_market_buy(t) {
            assert(size * floor_price <= size * m.price) by (nonlinear_arith)
                requires
                    floor_price <= m.price;
            assert(total_size(fills) * floor_price == size * floor_price + total_size(r.1) * floor_price) by (nonlinear_arith)
                requires
                    total_size(fills) == size + total_size(r.1);
            assert(t1.funds == t.funds - size * m.price);
        }
    }
}

/// What a taker trades over one walk stays within what it brought: for a
/// limit or market sell taker the traded sizes add up to at most its size;
/// for a market buy taker, the traded sizes priced at the best ask add up to
/// at most its funds.
pub proof fn lemma_walk_within_taker(t: BookOrder, makers: Seq<BookOrder>)
    requires
        sorted_by(true, makers) || !is_market_buy(t),
    ensures
        !is_market_buy(t) ==> total_size(walk(t, makers).1) <= t.size,
        is_market_buy(t) ==> total_cost(walk(t, makers).1) <= t.funds,
        is_market_buy(t) && makers.len() > 0 ==> total_size(walk(t, makers).1) * makers[0].price <= t.funds,
{
    if makers.len() > 0 {
        if is_market_buy(t) {
            assert forall|i: int| 0 <= i < makers.len() implies makers[0].price <= (#[trigger] makers[i]).price by {
                if i > 0 {
                    assert(order_precedes(true, makers[0], makers[i]));
                }
            }
        }
        if is_market_buy(t) {
            lemma_walk_spends(t, makers, makers[0].price);
        } else {
            lemma_walk_spends(t, makers, 0);
        }
    } else {
        lemma_walk_spends(t, makers, 0);
    }
}

/// Every resting order has a positive size, and no id rests on both sides.
pub proof fn lemma_resting_positive(b: OrderBook)
    requires
        b.wf(),
    ensures
        forall|i: int| 0 <= i < b.ask_depths.orders@.len() ==> (#[trigger] b.ask_depths.orders@[i]).size > 0,
        forall|i: int| 0 <= i < b.bid_depths.orders@.len() ==> (#[trigger] b.bid_depths.orders@[i]).size > 0,
        disjoint(b.ask_depths.orders@, b.bid_depths.orders@),
{
}

/// The head of the asks has the lowest ask price, the head of the bids the
/// highest bid price.
pub proof fn lemma_best_first(b: OrderBook)
    requires
        b.wf(),
    ensures
        forall|i: int|
            0 <= i < b.ask_depths.orders@.len() ==> b.ask_depths.orders@[0].price <= (#[trigger] b.ask_depths.orders@[i]).price,
        forall|i: int|
            0 <= i < b.bid_depths.orders@.len() ==> b.bid_depths.orders@[0].price >= (#[trigger] b.bid_depths.orders@[i]).price,
{
    let a = b.ask_depths.orders@;
    let d = b.bid_depths.orders@;
    assert forall|i: int| 0 < i < a.len() implies a[0].price <= (#[trigger] a[i]).price by {
        assert(order_precedes(true, a[0], a[i]));
    }
    assert forall|i: int| 0 < i < d.len() implies d[0].price >= (#[trigger] d[i]).price by {
        assert(order_precedes(false, d[0], d[i]));
    }
}

/// Logs that match a run of events are numbered without gaps: the first
/// follows `log_seq`, and each next one is one more.
pub proof fn lemma_sequences_gap_free(logs: Seq<Log>, events: Seq<LogEvent>, log_seq: int, product_id: Seq<char>)
    requires
        logs_match(logs, events, log_seq, product_id),
    ensures
        logs.len() > 0 ==> logs[0].sequence() == log_seq + 1,
        forall|i: int| 0 <= i < logs.len() - 1 ==> (#[trigger] logs[i + 1]).sequence() == logs[i].sequence() + 1,
{
    assert forall|i: int| 0 <= i < logs.len() - 1 implies (#[trigger] logs[i + 1]).sequence() == logs[i].sequence() + 1 by {
        assert(logs[i].event() == events[i]);
        assert(logs[i + 1].event() == events[i + 1]);
    }
    if logs.len() > 0 {
        assert(logs[0].event() == events[0]);
    }
}

/// A book's snapshot is one that `restore` accepts, laid out as `restore`
/// reads back to the same snapshot: asks first, then bids.
pub proof fn lemma_snapshot_restorable(b: OrderBook)
    requires
        b.wf(),
    ensures
        valid_snapshot(b.snapshot_view()),
        split_sorted(b.snapshot_view().1, b.ask_depths.orders@.len() as int),
{
    let a = b.ask_depths.orders@;
    let d = b.bid_depths.orders@;
    let s = b.snapshot_view().1;
    let n = a.len() as int;
    assert forall|i: int| 0 <= i < s.len() implies (#[trigger] s[i]).size > 0 && (i < n ==> s[i] == a[i]) && (i
        >= n ==> s[i] == d[i - n]) by {
        if i < n {
            assert(s[i] == a[i]);
        } else {
            assert(s[i] == d[i - n]);
        }
    }
    assert forall|i: int, j: int| 0 <= i < s.len() && 0 <= j < s.len() && i != j implies #[trigger] s[i].order_id
        != #[trigger] s[j].order_id by {
        if i < n && j < n {
        } else if i >= n && j >= n {
            assert(d[i - n].order_id != d[j - n].order_id);
        } else if i < n {
            assert(a[i].order_id != d[j - n].order_id);
        } else {
            assert(a[j].order_id != d[i - n].order_id);
        }
    }
    assert forall|i: int, j: int| 0 <= i < j < n implies #[trigger] order_precedes(true, s[i], s[j]) by {
        assert(order_precedes(true, a[i], a[j]));
    }
    assert forall|i: int, j: int| n <= i < j < s.len() implies #[trigger] order_precedes(false, s[i], s[j]) by {
        assert(order_precedes(false, d[i - n], d[j - n]));
    }
    assert forall|i: int| 0 <= i < n implies (#[trigger] s[i]).side == Side::SideSell by {
        assert(s[i] == a[i]);
    }
    assert forall|i: int| n <= i < s.len() implies (#[trigger] s[i]).side == Side::SideBuy by {
        assert(s[i] == d[i - n]);
    }
}

/// Two well-formed books with the same snapshot hold the same state: the
/// same product id, the same asks and bids in the same order, the same
/// counters and the same window. Every operation's contract speaks of that
/// state alone, so a restored book answers as the book it was taken from.
pub proof fn lemma_same_snapshot_same_state(b1: OrderBook, b2: OrderBook)
    requires
        b1.wf(),
        b2.wf(),
        b1.snapshot_view() == b2.snapshot_view(),
    ensures
        b1.product.id@ == b2.product.id@,
        b1.ask_depths.orders@ == b2.ask_depths.orders@,
        b1.bid_depths.orders@ == b2.bid_depths.orders@,
        b1.trade_seq == b2.trade_seq,
        b1.log_seq == b2.log_seq,
        b1.order_id_window@ == b2.order_id_window@,
        forall|id: u64| b1.order_id_window.rejects(id) == b2.order_id_window.rejects(id),
{
    let s = b1.snapshot_view().1;
    let n1 = b1.ask_depths.orders@.len() as int;
    let n2 = b2.ask_depths.orders@.len() as int;
    lemma_snapshot_restorable(b1);
    lemma_snapshot_restorable(b2);
    if n1 < n2 {
        assert(s[n1].side == Side::SideBuy);
        assert(s[n1].side == Side::SideSell);
    } else if n2 < n1 {
        assert(s[n2].side == Side::SideBuy);
        assert(s[n2].side == Side::SideSell);
    }
    assert(b1.ask_depths.orders@ =~= s.take(n1));
    assert(b2.ask_depths.orders@ =~= s.take(n2));
    assert(b1.bid_depths.orders@ =~= s.skip(n1));
    assert(b2.bid_depths.orders@ =~= s.skip(n2));
}

/// Applying an order is determined by the book's snapshot: two well-formed
/// books with the same snapshot, given the same order, emit logs that say the
/// same things under the same numbers (their clock times aside) and end with
/// the same snapshot. So a book restored from a snapshot answers every later
/// run of orders as the book the snapshot was taken from.
pub proof fn lemma_apply_determined(
    b1: OrderBook,
    b2: OrderBook,
    n1: OrderBook,
    n2: OrderBook,
    order: Order,
    l1: Seq<Log>,
    l2: Seq<Log>,
)
    requires
        b1.wf(),
        b2.wf(),
        n1.wf(),
        n2.wf(),
        b1.snapshot_view() == b2.snapshot_view(),
        n1.product == b1.product,
        n2.product == b2.product,
        b1.order_id_window.rejects(order.id) ==> l1.len() == 0 && n1 == b1,
        b2.order_id_window.rejects(order.id) ==> l2.len() == 0 && n2 == b2,
        b1.applied(n1, order, l1),
        b2.applied(n2, order, l2),
    ensures
        l1.len() == l2.len(),
        forall|i: int| 0 <= i < l1.len() ==> (#[trigger] l1[i]).event() == l2[i].event() && l1[i].sequence() == l2[i].sequence()
            && l1[i].base().product_id@ == l2[i].base().product_id@,
        n1.snapshot_view() == n2.snapshot_view(),
{
    lemma_same_snapshot_same_state(b1, b2);
    assert(b1.order_id_window.rejects(order.id) == b2.order_id_window.rejects(order.id));
    if !b1.order_id_window.rejects(order.id) {
        let t0 = taker_of(order);
        let opp = b1.opposite(order.side).orders@;
        let own = b1.own(order.side).orders@;
        assert(opp == b2.opposite(order.side).orders@);
        assert(own == b2.own(order.side).orders@);
        let (tf, fills) = walk(t0, opp);
        let evs = fills_logs(t0, fills, b1.trade_seq as int).push(taker_log(tf));
        assert forall|i: int| 0 <= i < l1.len() implies (#[trigger] l1[i]).event() == l2[i].event() && l1[i].sequence()
            == l2[i].sequence() && l1[i].base().product_id@ == l2[i].base().product_id@ by {
            assert(l1[i].event() == evs[i]);
            assert(l2[i].event() == evs[i]);
        }
        if rests(tf) {
            let pos_a = choose|p: int| 0 <= p <= own.len() && n1.own(order.side).orders@ == own.insert(p, tf);
            let pos_b = choose|p: int| 0 <= p <= own.len() && n2.own(order.side).orders@ == own.insert(p, tf);
            lemma_sorted_insert_unique(n1.own(order.side).ascending, own, tf, pos_a, pos_b);
        }
        assert(n1.ask_depths.orders@ == n2.ask_depths.orders@);
        assert(n1.bid_depths.orders@ == n2.bid_depths.orders@);
        assert(n1.order_id_window@ == n2.order_id_window@);
    }
}

/// Restoring is deterministic: two well-formed books whose sides hold the
/// same orders, as two successful restores of one snapshot do, have the same
/// queues.
pub proof fn lemma_restores_agree(b1: OrderBook, b2: OrderBook)
    requires
        b1.wf(),
        b2.wf(),
        forall|x: BookOrder| #[trigger] b1.ask_depths.orders@.contains(x) == b2.ask_depths.orders@.contains(x),
        forall|x: BookOrder| #[trigger] b1.bid_depths.orders@.contains(x) == b2.bid_depths.orders@.contains(x),
    ensures
        b1.ask_depths.orders@ == b2.ask_depths.orders@,
        b1.bid_depths.orders@ == b2.bid_depths.orders@,
{
    lemma_sorted_unique(true, b1.ask_depths.orders@, b2.ask_depths.orders@);
    lemma_sorted_unique(false, b1.bid_depths.orders@, b2.bid_depths.orders@);
}

/// The match logs of one accepted order trade no more than the taker
/// brought: a limit or market sell taker matches at most its size; a market
/// buy taker spends at most its funds, and the sizes it matches, priced at the
/// best ask it met, come to at most its funds.
pub proof fn lemma_match_logs_within_taker(b: OrderBook, n: OrderBook, order: Order, logs: Seq<Log>)
    requires
        b.wf(),
        !b.order_id_window.rejects(order.id),
        b.applied(n, order, logs),
    ensures
        ({
            let evs = logs.map_values(|l: Log| l.event());
            let buy = order.order_type == OrderType::OrderTypeMarket && order.side == Side::SideBuy;
            &&& !buy ==> matched_size(evs) <= order.size
            &&& buy ==> matched_cost(evs) <= order.funds
            &&& buy && b.ask_depths.orders@.len() > 0 ==> matched_size(evs) * b.ask_depths.orders@[0].price <= order.funds
        }),
{
    let t0 = taker_of(order);
    let opp = b.opposite(order.side).orders@;
    let (tf, fills) = walk(t0, opp);
    let fe = fills_logs(t0, fills, b.trade_seq as int);
    let evs = fe.push(taker_log(tf));
    assert(logs.map_values(|l: Log| l.event()) =~= evs);
    lemma_matched_fills(t0, fills, b.trade_seq as int);
    assert(evs.drop_last() =~= fe);
    if is_market_buy(t0) {
        assert(sorted_by(true, opp));
    }
    lemma_walk_within_taker(t0, opp);
}

/// The trade numbers of the match events in `evs`, in order.
pub open spec fn match_seqs(evs: Seq<LogEvent>) -> Seq<int>
    decreases evs.len(),
{
    if evs.len() == 0 {
        Seq::empty()
    } else {
        let before = match_seqs(evs.drop_last());
        match evs.last() {
            LogEvent::Match { trade_seq, .. } => before.push(trade_seq as int),
            _ => before,
        }
    }
}

proof fn lemma_match_seqs_append(a: Seq<LogEvent>, b: Seq<LogEvent>)
    ensures
        match_seqs(a + b) == match_seqs(a) + match_seqs(b),
    decreases b.len(),
{
    if b.len() == 0 {
        assert(a + b =~= a);
        assert(match_seqs(a) + match_seqs(b) =~= match_seqs(a));
    } else {
        lemma_match_seqs_append(a, b.drop_last());
        assert((a + b).drop_last() =~= a + b.drop_last());
        assert((a + b).last() == b.last());
        let mb = match_seqs(b.drop_last());
        match b.last() {
            LogEvent::Match { trade_seq, .. } => {
                assert(match_seqs(a) + mb.push(trade_seq as int) =~= (match_seqs(a) + mb).push(trade_seq as int));
            },
            _ => {},
        }
    }
}

proof fn lemma_fills_trade_seqs(t: BookOrder, fills: Seq<Fill>, trade_seq: int)
    requires
        0 <= trade_seq,
        trade_seq + fills.len() <= u64::MAX,
    ensures
        match_seqs(fills_logs(t, fills, trade_seq)) == Seq::new(fills.len(), |j: int| trade_seq + j + 1),
    decreases fills.len(),
{
    if fills.len() == 0 {
        assert(match_seqs(Seq::<LogEvent>::empty()) =~= Seq::new(0, |j: int| trade_seq + j + 1));
    } else {
        let f = fills.last();
        let k = (trade_seq + fills.len()) as u64;
        let one = fill_logs(t, f, k);
        lemma_fills_trade_seqs(t, fills.drop_last(), trade_seq);
        lemma_match_seqs_append(fills_logs(t, fills.drop_last(), trade_seq), one);
        assert(fills_logs(t, fills, trade_seq) == fills_logs(t, fills.drop_last(), trade_seq) + one);
        let m = one[0];
        assert(m == match_event(k, t, f.maker, f.maker.price, f.size));
        let single = seq![m];
        assert(single.drop_last() =~= Seq::<LogEvent>::empty());
        assert(single.last() == m);
        assert(match_seqs(Seq::<LogEvent>::empty()) == Seq::<int>::empty());
        assert(match_seqs(single) =~= seq![k as int]);
        if f.maker.size == f.size {
            assert(one.drop_last() =~= single);
            assert(one.last() == one[1]);
        } else {
            assert(one =~= single);
        }
        assert(match_seqs(one) =~= seq![k as int]);
        assert(Seq::new((fills.len() - 1) as nat, |j: int| trade_seq + j + 1) + seq![k as int] =~= Seq::new(
            fills.len(),
            |j: int| trade_seq + j + 1,
        ));
    }
}

/// The match logs of one accepted order are numbered by trade without gaps:
/// the j-th of them carries trade number `trade_seq + j + 1`, and the book's
/// trade counter moves past the last of them.
pub proof fn lemma_trade_seqs_gap_free(b: OrderBook, n: OrderBook, order: Order, logs: Seq<Log>)
    requires
        b.wf(),
        b.has_room(),
        !b.order_id_window.rejects(order.id),
        b.applied(n, order, logs),
    ensures
        match_seqs(logs.map_values(|l: Log| l.event())) == Seq::new(
            (n.trade_seq - b.trade_seq) as nat,
            |j: int| b.trade_seq + j + 1,
        ),
{
    let t0 = taker_of(order);
    let opp = b.opposite(order.side).orders@;
    let (tf, fills) = walk(t0, opp);
    lemma_walk_len(t0, opp);
    let fe = fills_logs(t0, fills, b.trade_seq as int);
    let evs = fe.push(taker_log(tf));
    assert(logs.map_values(|l: Log| l.event()) =~= evs);
    lemma_fills_trade_seqs(t0, fills, b.trade_seq as int);
    assert(evs.drop_last() =~= fe);
    assert(evs.last() == taker_log(tf));
}

proof fn lemma_walk_len(t: BookOrder, makers: Seq<BookOrder>)
    ensures
        walk(t, makers).1.len() <= makers.len(),
    decreases makers.len(),
{
    if makers.len() > 0 && !stops_before(t, makers[0]) {
        let size = trade_size(t, makers[0]);
        lemma_walk_len(after_trade(t, makers[0], size), makers.drop_first());
    }
}

} // verus!
