use vstd::prelude::*;

verus! {

/// Why the window refused an order id.
#[derive(Clone, Copy, Debug, PartialEq, Eq, Structural)]
pub enum WindowError {
    /// The id was already seen inside the window.
    Duplicate,
    /// The id lies at or below `max - cap`, behind the window.
    TooOld,
}

/// A sliding window over the most recent `cap` order ids up to the high-water
/// mark `max`. Slot `id % cap` remembers the last id recorded there.
#[derive(Clone, Debug)]
pub struct Window {
    pub max: u64,
    pub cap: u64,
    pub slots: Vec<Option<u64>>,
}

/// Two distinct ids less than `cap` apart fall into distinct slots.
proof fn lemma_distinct_slots(a: u64, b: u64, cap: u64)
    requires
        cap > 0,
        a < b,
        b - a < cap,
    ensures
        a % cap != b % cap,
{
    let k = (b / cap) as int - (a / cap) as int;
    assert(a as int == (a / cap) as int * cap + (a % cap) as int) by (nonlinear_arith)
        requires cap > 0;
    assert(b as int == (b / cap) as int * cap + (b % cap) as int) by (nonlinear_arith)
        requires cap > 0;
    if a % cap == b % cap {
        assert(b - a == k * cap) by (nonlinear_arith)
            requires
                a as int == (a / cap) as int * cap + (a % cap) as int,
                b as int == (b / cap) as int * cap + (b % cap) as int,
                a % cap == b % cap,
                k == (b / cap) as int - (a / cap) as int;
        assert(false) by (nonlinear_arith)
            requires
                0 < k * cap < cap,
                cap > 0;
    }
}

impl View for Window {
    type V = (u64, u64, Seq<Option<u64>>);

    open spec fn view(&self) -> (u64, u64, Seq<Option<u64>>) {
        (self.max, self.cap, self.slots@)
    }
}

/// A window value `(max, cap, slots)` is well formed.
pub open spec fn view_wf(v: (u64, u64, Seq<Option<u64>>)) -> bool {
    &&& v.1 > 0
    &&& v.2.len() == v.1
    &&& forall|j: int| 0 <= j < v.2.len() ==> match #[trigger] v.2[j] {
        Some(v2) => v2 <= v.0,
        None => true,
    }
}

/// The window value `(max, cap, slots)` refuses `id`.
pub open spec fn view_rejects(v: (u64, u64, Seq<Option<u64>>), id: u64) -> bool {
    id + v.1 <= v.0 || (id <= v.0 && id + v.1 > v.0 && v.2[(id % v.1) as int] == Some(id))
}

impl Window {
    pub open spec fn wf(&self) -> bool {
        &&& self.cap > 0
        &&& self.slots@.len() == self.cap
        &&& forall|j: int| 0 <= j < self.slots@.len() ==> match #[trigger] self.slots@[j] {
            Some(v) => v <= self.max,
            None => true,
        }
    }

    /// `id` lies inside the window: `max - cap < id <= max`.
    pub open spec fn in_window(&self, id: u64) -> bool {
        id <= self.max && id + self.cap > self.max
    }

    /// `id` lies behind the window: `id <= max - cap`.
    pub open spec fn too_old(&self, id: u64) -> bool {
        id + self.cap <= self.max
    }

    /// `id` was recorded and is still inside the window.
    pub open spec fn seen(&self, id: u64) -> bool {
        self.in_window(id) && self.slots@[(id % self.cap) as int] == Some(id)
    }

    /// A `put` of `id` would be refused.
    pub open spec fn rejects(&self, id: u64) -> bool {
        self.too_old(id) || self.seen(id)
    }

    /// `self` is `pre` after it accepted `id`: the mark rose to `id` if that
    /// is higher, `id` is seen, and every other id is seen if it was and is
    /// still inside the window.
    pub open spec fn accepted(&self, pre: Window, id: u64) -> bool {
        &&& self.cap == pre.cap
        &&& self.max == if id > pre.max {
            id
        } else {
            pre.max
        }
        &&& forall|x: u64| #[trigger] self.seen(x) == (x == id || (pre.seen(x) && self.in_window(x)))
        &&& self.slots@ == pre.slots@.update((id % pre.cap) as int, Some(id))
    }

    /// An empty window with high-water mark `max`.
    pub fn new(max: u64, cap: u64) -> (r: Window)
        requires
            cap > 0,
        ensures
            r.wf(),
            r.max == max,
            r.cap == cap,
            forall|id: u64| !#[trigger] r.seen(id),
            r.slots@ == Seq::new(cap as nat, |j: int| None::<u64>),
    {
        let mut slots: Vec<Option<u64>> = Vec::new();
        let mut i: u64 = 0;
        while i < cap
            invariant
                i <= cap,
                slots@.len() == i,
                forall|j: int| 0 <= j < i ==> slots@[j] == None::<u64>,
            decreases cap - i,
        {
            slots.push(None);
            i = i + 1;
        }
        let r = Window { max, cap, slots };
        assert(r.slots@ =~= Seq::new(cap as nat, |j: int| None::<u64>));
        assert forall|id: u64| !#[trigger] r.seen(id) by {
            assert(id % cap < cap);
        }
        r
    }

    /// Records `id`, or says why it is refused. A refused id leaves the window
    /// as it was; an accepted one raises the high-water mark to `max(max, id)`
    /// and drops what falls out behind it.
    pub fn put(&mut self, id: u64) -> (r: Option<WindowError>)
        requires
            old(self).wf(),
        ensures
            final(self).wf(),
            final(self).cap == old(self).cap,
            final(self).rejects(id),
            forall|x: u64| #[trigger] old(self).rejects(x) ==> final(self).rejects(x),
            old(self).too_old(id) ==> r == Some(WindowError::TooOld) && *final(self) == *old(self),
            !old(self).too_old(id) && old(self).seen(id) ==> r == Some(WindowError::Duplicate)
                && *final(self) == *old(self),
            !old(self).rejects(id) ==> r.is_none() && final(self).accepted(*old(self), id),
    {
        if id <= self.max && self.max - id >= self.cap {
            return Some(WindowError::TooOld);
        }
        let n: usize = self.slots.len();
        assert(id % self.cap < self.cap);
        let slot = (id % self.cap) as usize;
        assert(slot as int == id % self.cap && slot < n);
        if id <= self.max {
            match self.slots[slot] {
                Some(v) => {
                    if v == id {
                        return Some(WindowError::Duplicate);
                    }
                },
                None => {},
            }
        }
        let ghost pre = *self;
        if id > self.max {
            self.max = id;
        }
        self.slots.set(slot, Some(id));
        assert forall|j: int| 0 <= j < self.slots@.len() implies match #[trigger] self.slots@[j] {
            Some(v) => v <= self.max,
            None => true,
        } by {
            if j != slot as int {
                assert(pre.slots@[j] == self.slots@[j]);
            }
        }
        assert forall|x: u64| #[trigger] self.seen(x) == (x == id || (pre.seen(x) && self.in_window(x))) by {
            if x != id && self.in_window(x) {
                if x < id {
                    lemma_distinct_slots(x, id, self.cap);
                } else {
                    lemma_distinct_slots(id, x, self.cap);
                }
                let j = (x % self.cap) as int;
                assert(x <= self.max);
                assert(self.slots@[j] == pre.slots@[j]);
                if self.slots@[j] == Some(x) {
                    assert(x <= pre.max);
                }
            }
        }
        assert forall|x: u64| #[trigger] pre.rejects(x) implies self.rejects(x) by {
            if pre.seen(x) && x != id && self.in_window(x) {
                assert(self.seen(x));
            }
        }
        None
    }

    /// Whether a `put` of `id` would be refused, without recording it.
    pub fn would_reject(&self, id: u64) -> (r: bool)
        requires
            self.wf(),
        ensures
            r == self.rejects(id),
    {
        if id <= self.max && self.max - id >= self.cap {
            return true;
        }
        if id > self.max {
            return false;
        }
        let n: usize = self.slots.len();
        assert(id % self.cap < self.cap);
        let slot = (id % self.cap) as usize;
        assert(slot as int == id % self.cap && slot < n);
        match self.slots[slot] {
            Some(v) => v == id,
            None => false,
        }
    }

    /// Whether the window is well formed.
    pub fn check(&self) -> (r: bool)
        ensures
            r == self.wf(),
    {
        if self.cap == 0 || self.slots.len() as u64 != self.cap {
            return false;
        }
        let mut i: usize = 0;
        while i < self.slots.len()
            invariant
                i <= self.slots@.len(),
                forall|j: int| 0 <= j < i ==> match #[trigger] self.slots@[j] {
                    Some(v) => v <= self.max,
                    None => true,
                },
            decreases self.slots@.len() - i,
        {
            match self.slots[i] {
                Some(v) => {
                    if v > self.max {
                        return false;
                    }
                },
                None => {},
            }
            i = i + 1;
        }
        true
    }

    /// A copy holding the same ids.
    pub fn copy(&self) -> (r: Window)
        requires
            self.wf(),
        ensures
            r@ == self@,
    {
        let mut slots: Vec<Option<u64>> = Vec::new();
        let mut i: usize = 0;
        while i < self.slots.len()
            invariant
                i <= self.slots@.len(),
                slots@ == self.slots@.subrange(0, i as int),
            decreases self.slots@.len() - i,
        {
            slots.push(self.slots[i]);
            i = i + 1;
        }
        assert(slots@ =~= self.slots@);
        Window { max: self.max, cap: self.cap, slots }
    }
}

} // verus!
