use vstd::prelude::*;

use crate::order_book::BookOrder;
use crate::ordering::{key_precedes, lemma_key_order};

verus! {

/// Why a size decrement was refused.
#[derive(Clone, Copy, Debug, PartialEq, Eq, Structural)]
pub enum DepthError {
    /// No resting order has that id.
    OrderNotFound,
    /// The decrement exceeds the resting size.
    SizeExceeded,
}

/// `a` comes before `b` in the queue of a side.
pub open spec fn order_precedes(ascending: bool, a: BookOrder, b: BookOrder) -> bool {
    key_precedes(ascending, a.price, a.order_id, b.price, b.order_id)
}

pub open spec fn sorted_by(ascending: bool, s: Seq<BookOrder>) -> bool {
    forall|i: int, j: int|
        0 <= i < j < s.len() ==> #[trigger] order_precedes(ascending, s[i], s[j])
}

pub open spec fn ids_unique(s: Seq<BookOrder>) -> bool {
    forall|i: int, j: int|
        0 <= i < s.len() && 0 <= j < s.len() && i != j ==> #[trigger] s[i].order_id != #[trigger] s[j].order_id
}

pub open spec fn all_positive(s: Seq<BookOrder>) -> bool {
    forall|i: int| 0 <= i < s.len() ==> #[trigger] s[i].size > 0
}

pub open spec fn holds_id(s: Seq<BookOrder>, id: u64) -> bool {
    exists|i: int| 0 <= i < s.len() && #[trigger] s[i].order_id == id
}

/// Every order of `t` stands in `s` under the same id, side and price.
pub open spec fn ids_within(t: Seq<BookOrder>, s: Seq<BookOrder>) -> bool {
    forall|i: int| 0 <= i < t.len() ==> #[trigger] holds_like(s, t[i])
}

/// Some order of `s` has the id, side and price of `o`.
pub open spec fn holds_like(s: Seq<BookOrder>, o: BookOrder) -> bool {
    exists|j: int| 0 <= j < s.len() && same_origin(#[trigger] s[j], o)
}

pub open spec fn same_origin(a: BookOrder, b: BookOrder) -> bool {
    a.order_id == b.order_id && a.side == b.side && a.price == b.price
}

pub proof fn lemma_ids_within_trans(a: Seq<BookOrder>, b: Seq<BookOrder>, c: Seq<BookOrder>)
    requires
        ids_within(a, b),
        ids_within(b, c),
    ensures
        ids_within(a, c),
{
    assert forall|i: int| 0 <= i < a.len() implies #[trigger] holds_like(c, a[i]) by {
        assert(holds_like(b, a[i]));
        let jb = choose|j: int| 0 <= j < b.len() && same_origin(#[trigger] b[j], a[i]);
        assert(holds_like(c, b[jb]));
        let jc = choose|j: int| 0 <= j < c.len() && same_origin(#[trigger] c[j], b[jb]);
        assert(same_origin(c[jc], a[i]));
    }
}

/// `o` with its size lowered by `delta`.
pub open spec fn decreased(o: BookOrder, delta: u64) -> BookOrder {
    BookOrder { size: (o.size - delta) as u64, ..o }
}

/// The queue after taking `delta` from the order at `i`: the order leaves
/// when nothing of it remains.
pub open spec fn after_decrement(s: Seq<BookOrder>, i: int, delta: u64) -> Seq<BookOrder> {
    if s[i].size == delta {
        s.remove(i)
    } else {
        s.update(i, decreased(s[i], delta))
    }
}

/// One side of the book. `orders` is the queue itself: the resting orders in
/// priority order, ascending for asks and descending for bids.
#[derive(Debug)]
pub struct SideDepth {
    pub ascending: bool,
    pub orders: Vec<BookOrder>,
}

impl SideDepth {
    pub open spec fn wf(&self) -> bool {
        &&& sorted_by(self.ascending, self.orders@)
        &&& ids_unique(self.orders@)
        &&& all_positive(self.orders@)
    }

    /// The queue's keys, best first.
    pub open spec fn queue(&self) -> Seq<(u64, u64)> {
        self.orders@.map_values(|o: BookOrder| (o.price, o.order_id))
    }

    /// The ids of the resting orders.
    pub open spec fn order_ids(&self) -> Set<u64> {
        self.orders@.map_values(|o: BookOrder| o.order_id).to_set()
    }

    pub open spec fn has(&self, id: u64) -> bool {
        holds_id(self.orders@, id)
    }

    pub fn new(ascending: bool) -> (r: SideDepth)
        ensures
            r.wf(),
            r.ascending == ascending,
            r.orders@.len() == 0,
    {
        SideDepth { ascending, orders: Vec::new() }
    }

    pub fn len(&self) -> (r: usize)
        ensures
            r == self.orders@.len(),
    {
        self.orders.len()
    }

    /// The position of the order with id `id`.
    pub fn find(&self, id: u64) -> (r: Option<usize>)
        requires
            self.wf(),
        ensures
            r.is_none() <==> !self.has(id),
            r matches Some(i) ==> i < self.orders@.len() && self.orders@[i as int].order_id == id,
    {
        let mut i: usize = 0;
        while i < self.orders.len()
            invariant
                i <= self.orders@.len(),
                forall|j: int| 0 <= j < i ==> #[trigger] self.orders@[j].order_id != id,
            decreases self.orders@.len() - i,
        {
            if self.orders[i].order_id == id {
                return Some(i);
            }
            i = i + 1;
        }
        None
    }

    /// The resting order with id `id`, if any.
    pub fn get(&self, id: u64) -> (r: Option<BookOrder>)
        requires
            self.wf(),
        ensures
            r.is_none() <==> !self.has(id),
            r matches Some(o) ==> o.order_id == id && self.orders@.contains(o),
    {
        match self.find(id) {
            Some(i) => Some(self.orders[i]),
            None => None,
        }
    }

    /// The head of the queue, without removing it.
    pub fn best(&self) -> (r: Option<BookOrder>)
        ensures
            r == if self.orders@.len() == 0 {
                None
            } else {
                Some(self.orders@[0])
            },
    {
        if self.orders.len() == 0 {
            None
        } else {
            Some(self.orders[0])
        }
    }

    fn precedes_at(&self, order: &BookOrder, p: usize) -> (r: bool)
        requires
            p < self.orders@.len(),
        ensures
            r == order_precedes(self.ascending, *order, self.orders@[p as int]),
    {
        let o = self.orders[p];
        if o.price == order.price {
            order.order_id < o.order_id
        } else if self.ascending {
            order.price < o.price
        } else {
            order.price > o.price
        }
    }

    /// Rests `order` at its price-time position.
    pub fn add(&mut self, order: BookOrder)
        requires
            old(self).wf(),
            order.size > 0,
            !old(self).has(order.order_id),
        ensures
            final(self).wf(),
            final(self).ascending == old(self).ascending,
            exists|p: int|
                0 <= p <= old(self).orders@.len() && final(self).orders@ == old(self).orders@.insert(p, order),
            (forall|i: int|
                0 <= i < old(self).orders@.len() ==> order_precedes(
                    old(self).ascending,
                    #[trigger] old(self).orders@[i],
                    order,
                )) ==> final(self).orders@ == old(self).orders@.push(order),
    {
        let ghost s = self.orders@;
        let asc = self.ascending;
        let mut p: usize = 0;
        while p < self.orders.len() && !self.precedes_at(&order, p)
            invariant
                p <= s.len(),
                self.orders@ == s,
                self.ascending == asc,
                !holds_id(s, order.order_id),
                forall|j: int| 0 <= j < p ==> order_precedes(asc, #[trigger] s[j], order),
            decreases s.len() - p,
        {
            let o = self.orders[p];
            proof {
                assert(s[p as int] == o);
                assert(!order_precedes(asc, order, o));
                assert(o.order_id != order.order_id);
                lemma_key_order(asc, o.price, o.order_id, order.price, order.order_id, 0, 0);
                assert(order_precedes(asc, s[p as int], order));
            }
            p = p + 1;
        }
        self.orders.insert(p, order);
        proof {
            let t = self.orders@;
            assert(t == s.insert(p as int, order));
            assert forall|i: int, j: int| 0 <= i < j < t.len() implies #[trigger] order_precedes(asc, t[i], t[j]) by {
                if j < p {
                    assert(order_precedes(asc, s[i], s[j]));
                } else if j == p {
                    assert(order_precedes(asc, s[i], order));
                } else if i < p {
                    let q = p as int;
                    assert(order_precedes(asc, s[i], order));
                    assert(order_precedes(asc, order, s[q]));
                    if j - 1 > q {
                        assert(order_precedes(asc, s[q], s[j - 1]));
                        lemma_key_order(asc, order.price, order.order_id, s[q].price, s[q].order_id, s[j - 1].price, s[j - 1].order_id);
                    }
                    lemma_key_order(asc, s[i].price, s[i].order_id, order.price, order.order_id, s[j - 1].price, s[j - 1].order_id);
                } else if i == p {
                    let q = p as int;
                    assert(order_precedes(asc, order, s[q]));
                    if j - 1 > q {
                        assert(order_precedes(asc, s[q], s[j - 1]));
                        lemma_key_order(asc, order.price, order.order_id, s[q].price, s[q].order_id, s[j - 1].price, s[j - 1].order_id);
                    }
                } else {
                    assert(order_precedes(asc, s[i - 1], s[j - 1]));
                }
            }
            assert forall|i: int, j: int| 0 <= i < t.len() && 0 <= j < t.len() && i != j
                implies #[trigger] t[i].order_id != #[trigger] t[j].order_id by {
                if i == p {
                    assert(s[if j < p { j } else { j - 1 }] == t[j]);
                } else if j == p {
                    assert(s[if i < p { i } else { i - 1 }] == t[i]);
                } else {
                    assert(s[if i < p { i } else { i - 1 }] == t[i]);
                    assert(s[if j < p { j } else { j - 1 }] == t[j]);
                }
            }
            assert forall|i: int| 0 <= i < t.len() implies #[trigger] t[i].size > 0 by {
                if i != p {
                    assert(s[if i < p { i } else { i - 1 }] == t[i]);
                }
            }
            if forall|i: int| 0 <= i < s.len() ==> order_precedes(asc, #[trigger] s[i], order) {
                if p < s.len() {
                    lemma_key_order(asc, order.price, order.order_id, s[p as int].price, s[p as int].order_id, 0, 0);
                }
                assert(t =~= s.push(order));
            }
        }
    }

    /// Takes `delta` from the size of the order with id `order_id`, removing
    /// it when nothing remains. Refuses an unknown id or a `delta` above the
    /// resting size, and then changes nothing.
    pub fn decr_size(&mut self, order_id: u64, delta: u64) -> (r: Option<DepthError>)
        requires
            old(self).wf(),
        ensures
            final(self).wf(),
            final(self).ascending == old(self).ascending,
            r == Some(DepthError::OrderNotFound) <==> !old(self).has(order_id),
            r.is_none() <==> exists|i: int|
                0 <= i < old(self).orders@.len() && #[trigger] old(self).orders@[i].order_id == order_id
                    && delta <= old(self).orders@[i].size,
            r.is_some() ==> final(self).orders@ == old(self).orders@,
            ids_within(final(self).orders@, old(self).orders@),
            forall|i: int|
                0 <= i < old(self).orders@.len() && #[trigger] old(self).orders@[i].order_id == order_id
                    && delta <= old(self).orders@[i].size ==> final(self).orders@ == after_decrement(
                    old(self).orders@,
                    i,
                    delta,
                ),
    {
        let ghost s = self.orders@;
        match self.find(order_id) {
            None => {
                proof {
                    let t = self.orders@;
                    assert forall|a: int| 0 <= a < t.len() implies #[trigger] holds_like(s, t[a]) by {
                        assert(same_origin(s[a], t[a]));
                    }
                }
                Some(DepthError::OrderNotFound)
            },
            Some(i) => {
                let o = self.orders[i];
                if delta > o.size {
                    proof {
                        let t = self.orders@;
                        assert forall|a: int| 0 <= a < t.len() implies #[trigger] holds_like(s, t[a]) by {
                            assert(same_origin(s[a], t[a]));
                        }
                    }
                    return Some(DepthError::SizeExceeded);
                }
                if delta == o.size {
                    self.orders.remove(i);
                    proof {
                        let t = self.orders@;
                        assert forall|a: int, b: int| 0 <= a < b < t.len() implies #[trigger] order_precedes(self.ascending, t[a], t[b]) by {
                            assert(t[a] == s[if a < i { a } else { a + 1 }]);
                            assert(t[b] == s[if b < i { b } else { b + 1 }]);
                        }
                        assert forall|a: int, b: int| 0 <= a < t.len() && 0 <= b < t.len() && a != b
                            implies #[trigger] t[a].order_id != #[trigger] t[b].order_id by {
                            assert(t[a] == s[if a < i { a } else { a + 1 }]);
                            assert(t[b] == s[if b < i { b } else { b + 1 }]);
                        }
                        assert forall|a: int| 0 <= a < t.len() implies #[trigger] t[a].size > 0 by {
                            assert(t[a] == s[if a < i { a } else { a + 1 }]);
                        }
                    }
                } else {
                    let n = BookOrder { size: o.size - delta, ..o };
                    self.orders.set(i, n);
                    proof {
                        let t = self.orders@;
                        assert forall|a: int, b: int| 0 <= a < b < t.len() implies #[trigger] order_precedes(self.ascending, t[a], t[b]) by {
                            assert(order_precedes(self.ascending, s[a], s[b]));
                        }
                        assert forall|a: int, b: int| 0 <= a < t.len() && 0 <= b < t.len() && a != b
                            implies #[trigger] t[a].order_id != #[trigger] t[b].order_id by {
                            assert(s[a].order_id != s[b].order_id);
                        }
                        assert forall|a: int| 0 <= a < t.len() implies #[trigger] t[a].size > 0 by {
                            assert(s[a].size > 0);
                        }
                    }
                }
                proof {
                    let t = self.orders@;
                    assert forall|a: int| 0 <= a < t.len() implies #[trigger] holds_like(s, t[a]) by {
                        let j = if delta == o.size && a >= i { a + 1 } else { a };
                        assert(same_origin(s[j], t[a]));
                    }
                    assert forall|k: int|
                        0 <= k < s.len() && #[trigger] s[k].order_id == order_id && delta <= s[k].size
                        implies self.orders@ == after_decrement(s, k, delta) by {
                        assert(k == i);
                        assert(self.orders@ =~= after_decrement(s, k, delta));
                    }
                }
                None
            },
        }
    }
}

/// The queue and the order index of a side agree: as many keys as orders,
/// the keys name exactly the resting ids, and each key carries the price of
/// the order it names.
pub proof fn lemma_queue_matches_orders(d: SideDepth)
    requires
        d.wf(),
    ensures
        d.queue().len() == d.order_ids().len(),
        d.queue().map_values(|k: (u64, u64)| k.1).to_set() == d.order_ids(),
        forall|i: int|
            0 <= i < d.queue().len() ==> d.orders@[i].order_id == (#[trigger] d.queue()[i]).1
                && d.orders@[i].price == d.queue()[i].0,
{
    let ids = d.orders@.map_values(|o: BookOrder| o.order_id);
    assert forall|i: int, j: int| 0 <= i < ids.len() && 0 <= j < ids.len() && i != j implies ids[i] != ids[j] by {
        assert(d.orders@[i].order_id != d.orders@[j].order_id);
    }
    ids.unique_seq_to_set();
    assert(d.queue().map_values(|k: (u64, u64)| k.1) =~= ids);
}

/// A sorted queue has one place for a new order: two sorted results of
/// inserting `x` into `a` are the same queue.
pub proof fn lemma_sorted_insert_unique(ascending: bool, a: Seq<BookOrder>, x: BookOrder, pos_a: int, pos_b: int)
    requires
        0 <= pos_a <= a.len(),
        0 <= pos_b <= a.len(),
        sorted_by(ascending, a.insert(pos_a, x)),
        sorted_by(ascending, a.insert(pos_b, x)),
    ensures
        a.insert(pos_a, x) == a.insert(pos_b, x),
{
    if pos_a != pos_b {
        let (lo, hi) = if pos_a < pos_b { (pos_a, pos_b) } else { (pos_b, pos_a) };
        let s_lo = a.insert(lo, x);
        let s_hi = a.insert(hi, x);
        assert(s_lo[lo] == x);
        assert(s_lo[lo + 1] == a[lo]);
        assert(order_precedes(ascending, s_lo[lo], s_lo[lo + 1]));
        assert(s_hi[lo] == a[lo]);
        assert(s_hi[hi] == x);
        assert(order_precedes(ascending, s_hi[lo], s_hi[hi]));
        lemma_key_order(ascending, x.price, x.order_id, a[lo].price, a[lo].order_id, 0, 0);
    }
}

/// A queue is fixed by the orders it holds: two queues sorted the same way
/// and holding the same orders are the same queue.
pub proof fn lemma_sorted_unique(ascending: bool, a: Seq<BookOrder>, b: Seq<BookOrder>)
    requires
        sorted_by(ascending, a),
        sorted_by(ascending, b),
        forall|x: BookOrder| #[trigger] a.contains(x) == b.contains(x),
    ensures
        a == b,
    decreases a.len(),
{
    if a.len() == 0 {
        if b.len() > 0 {
            assert(b.contains(b[0]));
            assert(a.contains(b[0]));
        }
        assert(a =~= b);
    } else {
        assert(a.contains(a[0]));
        assert(b.contains(a[0]));
        assert(b.contains(b[0]));
        assert(a.contains(b[0]));
        let j = choose|j: int| 0 <= j < b.len() && b[j] == a[0];
        let k = choose|k: int| 0 <= k < a.len() && a[k] == b[0];
        if a[0] != b[0] {
            assert(j != 0 && k != 0);
            assert(order_precedes(ascending, b[0], b[j]));
            assert(order_precedes(ascending, a[0], a[k]));
            lemma_key_order(ascending, a[0].price, a[0].order_id, b[0].price, b[0].order_id, 0, 0);
            assert(false);
        }
        assert(a[0] == b[0]);
        let ra = a.drop_first();
        let rb = b.drop_first();
        assert forall|x: BookOrder| #[trigger] ra.contains(x) == rb.contains(x) by {
            if ra.contains(x) {
                let i = choose|i: int| 0 <= i < ra.len() && ra[i] == x;
                assert(ra[i] == a[i + 1]);
                assert(order_precedes(ascending, a[0], a[i + 1]));
                lemma_key_order(ascending, a[0].price, a[0].order_id, 0, 0, 0, 0);
                assert(a.contains(x));
                assert(b.contains(x));
                let m = choose|m: int| 0 <= m < b.len() && b[m] == x;
                assert(m != 0);
                assert(rb[m - 1] == x);
            }
            if rb.contains(x) {
                let i = choose|i: int| 0 <= i < rb.len() && rb[i] == x;
                assert(rb[i] == b[i + 1]);
                assert(order_precedes(ascending, b[0], b[i + 1]));
                lemma_key_order(ascending, b[0].price, b[0].order_id, 0, 0, 0, 0);
                assert(b.contains(x));
                assert(a.contains(x));
                let m = choose|m: int| 0 <= m < a.len() && a[m] == x;
                assert(m != 0);
                assert(ra[m - 1] == x);
            }
        }
        lemma_sorted_unique(ascending, ra, rb);
        assert(a =~= seq![a[0]] + ra);
        assert(b =~= seq![b[0]] + rb);
    }
}

} // verus!
