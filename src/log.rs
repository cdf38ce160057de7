use vstd::prelude::*;

use crate::order_book::BookOrder;
use crate::types::{DoneReason, Side, TimeInForceType};

verus! {

#[derive(Clone, Copy, Debug, PartialEq, Eq, Structural)]
pub enum LogType {
    LogTypeMatch,
    LogTypeOpen,
    LogTypeDone,
}

/// The header that every log shares.
#[derive(Clone, Debug)]
pub struct Base {
    pub log_type: LogType,
    pub sequence: u64,
    pub product_id: String,
    /// Nanoseconds since the Unix epoch at which the log was made.
    pub time: i64,
}

/// A limit taker's residual rested on the book.
#[derive(Clone, Debug)]
pub struct OpenLog {
    pub base: Base,
    pub order_id: u64,
    pub user_id: u64,
    pub remaining_size: u64,
    pub price: u64,
    pub side: Side,
    pub time_in_force: TimeInForceType,
}

/// An order left the engine: filled, cancelled or nullified.
#[derive(Clone, Debug)]
pub struct DoneLog {
    pub base: Base,
    pub order_id: u64,
    pub user_id: u64,
    pub price: u64,
    pub remaining_size: u64,
    pub reason: DoneReason,
    pub side: Side,
    pub time_in_force: TimeInForceType,
}

/// A taker traded with a maker, at the maker's price and on the maker's side.
#[derive(Clone, Debug)]
pub struct MatchLog {
    pub base: Base,
    pub trade_seq: u64,
    pub taker_order_id: u64,
    pub maker_order_id: u64,
    pub taker_user_id: u64,
    pub maker_user_id: u64,
    pub side: Side,
    pub price: u64,
    pub size: u64,
    pub taker_time_in_force: TimeInForceType,
    pub maker_time_in_force: TimeInForceType,
}

/// What a log says, apart from its header.
pub enum LogEvent {
    Open {
        order_id: u64,
        user_id: u64,
        remaining_size: u64,
        price: u64,
        side: Side,
        time_in_force: TimeInForceType,
    },
    Done {
        order_id: u64,
        user_id: u64,
        price: u64,
        remaining_size: u64,
        reason: DoneReason,
        side: Side,
        time_in_force: TimeInForceType,
    },
    Match {
        trade_seq: u64,
        taker_order_id: u64,
        maker_order_id: u64,
        taker_user_id: u64,
        maker_user_id: u64,
        side: Side,
        price: u64,
        size: u64,
        taker_time_in_force: TimeInForceType,
        maker_time_in_force: TimeInForceType,
    },
}

pub open spec fn open_event(o: BookOrder) -> LogEvent {
    LogEvent::Open {
        order_id: o.order_id,
        user_id: o.user_id,
        remaining_size: o.size,
        price: o.price,
        side: o.side,
        time_in_force: o.time_in_force,
    }
}

pub open spec fn done_event(o: BookOrder, remaining_size: u64, reason: DoneReason) -> LogEvent {
    LogEvent::Done {
        order_id: o.order_id,
        user_id: o.user_id,
        price: o.price,
        remaining_size,
        reason,
        side: o.side,
        time_in_force: o.time_in_force,
    }
}

pub open spec fn match_event(trade_seq: u64, taker: BookOrder, maker: BookOrder, price: u64, size: u64) -> LogEvent {
    LogEvent::Match {
        trade_seq,
        taker_order_id: taker.order_id,
        maker_order_id: maker.order_id,
        taker_user_id: taker.user_id,
        maker_user_id: maker.user_id,
        side: maker.side,
        price,
        size,
        taker_time_in_force: taker.time_in_force,
        maker_time_in_force: maker.time_in_force,
    }
}

/// The three kinds of log, as the caller receives them.
#[derive(Clone, Debug)]
pub enum Log {
    Open(OpenLog),
    Done(DoneLog),
    Match(MatchLog),
}

impl OpenLog {
    pub open spec fn event(&self) -> LogEvent {
        LogEvent::Open {
            order_id: self.order_id,
            user_id: self.user_id,
            remaining_size: self.remaining_size,
            price: self.price,
            side: self.side,
            time_in_force: self.time_in_force,
        }
    }

    pub fn get_seq(&self) -> (r: u64)
        ensures
            r == self.base.sequence,
    {
        self.base.sequence
    }
}

impl DoneLog {
    pub open spec fn event(&self) -> LogEvent {
        LogEvent::Done {
            order_id: self.order_id,
            user_id: self.user_id,
            price: self.price,
            remaining_size: self.remaining_size,
            reason: self.reason,
            side: self.side,
            time_in_force: self.time_in_force,
        }
    }

    pub fn get_seq(&self) -> (r: u64)
        ensures
            r == self.base.sequence,
    {
        self.base.sequence
    }
}

impl MatchLog {
    pub open spec fn event(&self) -> LogEvent {
        LogEvent::Match {
            trade_seq: self.trade_seq,
            taker_order_id: self.taker_order_id,
            maker_order_id: self.maker_order_id,
            taker_user_id: self.taker_user_id,
            maker_user_id: self.maker_user_id,
            side: self.side,
            price: self.price,
            size: self.size,
            taker_time_in_force: self.taker_time_in_force,
            maker_time_in_force: self.maker_time_in_force,
        }
    }

    pub fn get_seq(&self) -> (r: u64)
        ensures
            r == self.base.sequence,
    {
        self.base.sequence
    }
}

impl Log {
    pub open spec fn base(&self) -> Base {
        match self {
            Log::Open(l) => l.base,
            Log::Done(l) => l.base,
            Log::Match(l) => l.base,
        }
    }

    pub open spec fn event(&self) -> LogEvent {
        match self {
            Log::Open(l) => l.event(),
            Log::Done(l) => l.event(),
            Log::Match(l) => l.event(),
        }
    }

    pub open spec fn sequence(&self) -> u64 {
        self.base().sequence
    }

    pub fn get_seq(&self) -> (r: u64)
        ensures
            r == self.sequence(),
    {
        match self {
            Log::Open(l) => l.get_seq(),
            Log::Done(l) => l.get_seq(),
            Log::Match(l) => l.get_seq(),
        }
    }
}

/// Relies on chrono's `From<SystemTime> for DateTime<Utc>` on the system
/// clock (a clock before the Unix epoch gives a negative time), read as
/// nanoseconds since the epoch by `DateTime::timestamp_nanos_opt`; 0 where
/// that does not fit in an `i64`. Nothing is known of the value.
#[verifier::external_body]
fn now_nanos() -> (r: i64) {
    chrono::DateTime::<chrono::Utc>::from(std::time::SystemTime::now()).timestamp_nanos_opt().unwrap_or(0)
}

fn new_base(log_type: LogType, log_seq: u64, product_id: &str) -> (r: Base)
    ensures
        r.log_type == log_type,
        r.sequence == log_seq,
        r.product_id@ == product_id@,
{
    Base { log_type, sequence: log_seq, product_id: product_id.to_owned(), time: now_nanos() }
}

pub fn new_open_log(log_seq: u64, product_id: &str, taker_order: &BookOrder) -> (r: OpenLog)
    ensures
        r.base.log_type == LogType::LogTypeOpen,
        r.base.sequence == log_seq,
        r.base.product_id@ == product_id@,
        r.event() == open_event(*taker_order),
{
    OpenLog {
        base: new_base(LogType::LogTypeOpen, log_seq, product_id),
        order_id: taker_order.order_id,
        user_id: taker_order.user_id,
        remaining_size: taker_order.size,
        price: taker_order.price,
        side: taker_order.side,
        time_in_force: taker_order.time_in_force,
    }
}

pub fn new_done_log(
    log_seq: u64,
    product_id: &str,
    order: &BookOrder,
    remaining_size: u64,
    reason: DoneReason,
) -> (r: DoneLog)
    ensures
        r.base.log_type == LogType::LogTypeDone,
        r.base.sequence == log_seq,
        r.base.product_id@ == product_id@,
        r.event() == done_event(*order, remaining_size, reason),
{
    DoneLog {
        base: new_base(LogType::LogTypeDone, log_seq, product_id),
        order_id: order.order_id,
        user_id: order.user_id,
        price: order.price,
        remaining_size,
        reason,
        side: order.side,
        time_in_force: order.time_in_force,
    }
}

pub fn new_match_log(
    log_seq: u64,
    product_id: &str,
    trade_seq: u64,
    taker_order: &BookOrder,
    maker_order: &BookOrder,
    price: u64,
    size: u64,
) -> (r: MatchLog)
    ensures
        r.base.log_type == LogType::LogTypeMatch,
        r.base.sequence == log_seq,
        r.base.product_id@ == product_id@,
        r.event() == match_event(trade_seq, *taker_order, *maker_order, price, size),
{
    MatchLog {
        base: new_base(LogType::LogTypeMatch, log_seq, product_id),
        trade_seq,
        taker_order_id: taker_order.order_id,
        maker_order_id: maker_order.order_id,
        taker_user_id: taker_order.user_id,
        maker_user_id: maker_order.user_id,
        side: maker_order.side,
        price,
        size,
        taker_time_in_force: taker_order.time_in_force,
        maker_time_in_force: maker_order.time_in_force,
    }
}

} // verus!
