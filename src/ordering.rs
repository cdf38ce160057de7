use vstd::prelude::*;

verus! {

/// Priority of `(pa, ida)` over `(pb, idb)`: on asks the lower price first, on
/// bids the higher; at equal price the lower order id first.
pub open spec fn key_precedes(ascending: bool, pa: u64, ida: u64, pb: u64, idb: u64) -> bool {
    if pa == pb {
        ida < idb
    } else if ascending {
        pa < pb
    } else {
        pa > pb
    }
}

/// The comparison that `key_precedes` induces, as an `Ordering`.
pub open spec fn key_cmp(ascending: bool, pa: u64, ida: u64, pb: u64, idb: u64) -> std::cmp::Ordering {
    if pa == pb && ida == idb {
        std::cmp::Ordering::Equal
    } else if key_precedes(ascending, pa, ida, pb, idb) {
        std::cmp::Ordering::Less
    } else {
        std::cmp::Ordering::Greater
    }
}

/// A `(price, order_id)` key that can be built from its two parts.
pub trait PriceOrderIdKeyOrdering: Sized {
    spec fn key_price(&self) -> u64;

    spec fn key_order_id(&self) -> u64;

    fn new(price: u64, order_id: u64) -> (r: Self)
        ensures
            r.key_price() == price,
            r.key_order_id() == order_id,
    ;
}

/// Key of the ask side: lowest price first.
#[derive(Clone, Copy, Debug, PartialEq, Eq, Structural)]
pub struct PriceOrderIdKeyAsc {
    pub price: u64,
    pub order_id: u64,
}

impl PriceOrderIdKeyOrdering for PriceOrderIdKeyAsc {
    open spec fn key_price(&self) -> u64 {
        self.price
    }

    open spec fn key_order_id(&self) -> u64 {
        self.order_id
    }

    fn new(price: u64, order_id: u64) -> (r: Self) {
        PriceOrderIdKeyAsc { price, order_id }
    }
}

impl PriceOrderIdKeyAsc {
    pub fn cmp(&self, other: &Self) -> (r: std::cmp::Ordering)
        ensures
            r == key_cmp(true, self.price, self.order_id, other.price, other.order_id),
    {
        if self.price < other.price {
            std::cmp::Ordering::Less
        } else if self.price > other.price {
            std::cmp::Ordering::Greater
        } else if self.order_id < other.order_id {
            std::cmp::Ordering::Less
        } else if self.order_id > other.order_id {
            std::cmp::Ordering::Greater
        } else {
            std::cmp::Ordering::Equal
        }
    }
}

/// Key of the bid side: highest price first.
#[derive(Clone, Copy, Debug, PartialEq, Eq, Structural)]
pub struct PriceOrderIdKeyDesc {
    pub price: u64,
    pub order_id: u64,
}

impl PriceOrderIdKeyOrdering for PriceOrderIdKeyDesc {
    open spec fn key_price(&self) -> u64 {
        self.price
    }

    open spec fn key_order_id(&self) -> u64 {
        self.order_id
    }

    fn new(price: u64, order_id: u64) -> (r: Self) {
        PriceOrderIdKeyDesc { price, order_id }
    }
}

impl PriceOrderIdKeyDesc {
    pub fn cmp(&self, other: &Self) -> (r: std::cmp::Ordering)
        ensures
            r == key_cmp(false, self.price, self.order_id, other.price, other.order_id),
    {
        if self.price > other.price {
            std::cmp::Ordering::Less
        } else if self.price < other.price {
            std::cmp::Ordering::Greater
        } else if self.order_id < other.order_id {
            std::cmp::Ordering::Less
        } else if self.order_id > other.order_id {
            std::cmp::Ordering::Greater
        } else {
            std::cmp::Ordering::Equal
        }
    }
}

/// The priority is a strict total order on keys.
pub proof fn lemma_key_order(ascending: bool, pa: u64, ida: u64, pb: u64, idb: u64, pc: u64, idc: u64)
    ensures
        !key_precedes(ascending, pa, ida, pa, ida),
        key_precedes(ascending, pa, ida, pb, idb) ==> !key_precedes(ascending, pb, idb, pa, ida),
        key_precedes(ascending, pa, ida, pb, idb) && key_precedes(ascending, pb, idb, pc, idc)
            ==> key_precedes(ascending, pa, ida, pc, idc),
        (pa != pb || ida != idb) ==> key_precedes(ascending, pa, ida, pb, idb)
            || key_precedes(ascending, pb, idb, pa, ida),
{
}

} // verus!
