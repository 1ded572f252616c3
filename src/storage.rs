use vstd::prelude::*;
use crate::codec::{encodable, encoding, decoding, encode, decode, lemma_decoding_encoding};

verus! {

/// What the contracts see of one queued item: its priority and its payload bytes.
pub type Item = (u16, Seq<u8>);

/// One queued item: a priority (larger is more urgent) and an opaque payload.
pub struct StorageItem {
    pub priority: u16,
    pub data: Box<Vec<u8>>,
}

impl View for StorageItem {
    type V = Item;

    open spec fn view(&self) -> Item {
        (self.priority, self.data@)
    }
}

/// The views of a list of items.
pub open spec fn views(v: Seq<StorageItem>) -> Seq<Item> {
    v.map_values(|it: StorageItem| it@)
}

impl StorageItem {
    /// A deep copy of the item.
    pub fn copy(&self) -> (r: StorageItem)
        ensures
            r@ == self@,
    {
        StorageItem { priority: self.priority, data: Box::new(copy_bytes(&self.data)) }
    }
}

/// A copy of `v`.
pub fn copy_bytes(v: &Vec<u8>) -> (r: Vec<u8>)
    ensures
        r@ == v@,
{
    let mut r: Vec<u8> = Vec::new();
    let mut i: usize = 0;
    while i < v.len()
        invariant
            i <= v@.len(),
            r@ == v@.take(i as int),
        decreases v@.len() - i,
    {
        r.push(v[i]);
        i = i + 1;
        assert(r@ =~= v@.take(i as int));
    }
    assert(r@ =~= v@);
    r
}

/// The queue is in pop order: priorities never increase from front to back.
pub open spec fn sorted(q: Seq<Item>) -> bool {
    forall|i: int, j: int| 0 <= i < j < q.len() ==> q[i].0 >= q[j].0
}

/// The first position at or after `i` whose priority is below `p` (the length if none).
pub open spec fn first_below(q: Seq<Item>, p: u16, i: int) -> int
    decreases q.len() - i,
{
    if i < 0 || i >= q.len() {
        q.len() as int
    } else if q[i].0 < p {
        i
    } else {
        first_below(q, p, i + 1)
    }
}

/// The queue after pushing `(p, d)`: the new item goes after every item whose priority
/// is at least `p`, so equal priorities leave in the order they came.
pub open spec fn pushed(q: Seq<Item>, p: u16, d: Seq<u8>) -> Seq<Item> {
    q.insert(first_below(q, p, 0), (p, d))
}

/// The priority of the item that would leave next.
pub open spec fn head_priority(q: Seq<Item>) -> Option<u16> {
    if q.len() == 0 {
        None
    } else {
        Some(q[0].0)
    }
}

/// The queue that pushing every item of `s`, in order, builds on top of `q`.
pub open spec fn pushed_all(q: Seq<Item>, s: Seq<Item>) -> Seq<Item>
    decreases s.len(),
{
    if s.len() == 0 {
        q
    } else {
        let x = s.last();
        pushed(pushed_all(q, s.drop_last()), x.0, x.1)
    }
}

pub proof fn lemma_first_below_bounds(q: Seq<Item>, p: u16, i: int)
    requires
        0 <= i <= q.len(),
    ensures
        i <= first_below(q, p, i) <= q.len(),
        forall|j: int| i <= j < first_below(q, p, i) ==> q[j].0 >= p,
        first_below(q, p, i) < q.len() ==> q[first_below(q, p, i)].0 < p,
    decreases q.len() - i,
{
    if i < q.len() && q[i].0 >= p {
        lemma_first_below_bounds(q, p, i + 1);
    }
}

/// In a sorted queue the items before the insertion point are exactly those of priority
/// at least `p`.
pub proof fn lemma_first_below_sorted(q: Seq<Item>, p: u16)
    requires
        sorted(q),
    ensures
        0 <= first_below(q, p, 0) <= q.len(),
        forall|j: int| 0 <= j < first_below(q, p, 0) ==> q[j].0 >= p,
        forall|j: int| first_below(q, p, 0) <= j < q.len() ==> q[j].0 < p,
{
    lemma_first_below_bounds(q, p, 0);
}

/// Pushing keeps the queue sorted.
pub proof fn lemma_pushed_sorted(q: Seq<Item>, p: u16, d: Seq<u8>)
    requires
        sorted(q),
    ensures
        sorted(pushed(q, p, d)),
        pushed(q, p, d).len() == q.len() + 1,
{
    lemma_first_below_sorted(q, p);
    let k = first_below(q, p, 0);
    let r = pushed(q, p, d);
    assert forall|i: int, j: int| 0 <= i < j < r.len() implies r[i].0 >= r[j].0 by {
        if j < k {
        } else if j == k {
        } else if i < k {
        } else if i == k {
        } else {
        }
    }
}

/// A storage strategy: a queue of items that leave by descending priority, and in the
/// order they came among equal priorities.
pub trait Storage: Sized {
    /// The internal invariant of the strategy.
    spec fn wf(&self) -> bool;

    /// The items, in the order in which they would be popped.
    spec fn queue(&self) -> Seq<Item>;

    /// Every well-formed store holds its items in pop order.
    proof fn lemma_queue_sorted(&self)
        requires
            self.wf(),
        ensures
            sorted(self.queue()),
    ;

    fn new() -> (r: Self)
        ensures
            r.wf(),
            r.queue() == Seq::<Item>::empty(),
    ;

    fn push(&mut self, priority: u16, payload: Box<Vec<u8>>)
        requires
            old(self).wf(),
        ensures
            final(self).wf(),
            final(self).queue() == pushed(old(self).queue(), priority, payload@),
    ;

    /// Removes and returns the item that leaves next.
    fn pop(&mut self) -> (r: Option<StorageItem>)
        requires
            old(self).wf(),
        ensures
            final(self).wf(),
            old(self).queue().len() == 0 ==> r is None && final(self).queue() == old(self).queue(),
            old(self).queue().len() > 0 ==> r is Some && r->0@ == old(self).queue()[0]
                && final(self).queue() == old(self).queue().drop_first(),
    ;

    fn max_priority(&self) -> (r: Option<u16>)
        requires
            self.wf(),
        ensures
            r == head_priority(self.queue()),
    ;

    fn clear(&mut self)
        requires
            old(self).wf(),
        ensures
            final(self).wf(),
            final(self).queue() == Seq::<Item>::empty(),
    ;

    /// A second store holding copies of the same items.
    fn duplicate(&self) -> (r: Self)
        requires
            self.wf(),
        ensures
            r.wf(),
            r.queue() == self.queue(),
    ;

    /// Removes and returns up to `count` items, in pop order.
    fn pop_many(&mut self, count: usize) -> (r: Vec<StorageItem>)
        requires
            old(self).wf(),
        ensures
            final(self).wf(),
            r@.len() == if count < old(self).queue().len() { count as int } else { old(self).queue().len() as int },
            r@.map_values(|it: StorageItem| it@) == old(self).queue().take(r@.len() as int),
            final(self).queue() == old(self).queue().skip(r@.len() as int),
    {
        let mut out: Vec<StorageItem> = Vec::new();
        let ghost q0 = self.queue();
        while out.len() < count
            invariant
                self.wf(),
                out@.len() <= count,
                out@.len() <= q0.len(),
                out@.map_values(|it: StorageItem| it@) == q0.take(out@.len() as int),
                self.queue() == q0.skip(out@.len() as int),
            ensures
                out@.len() == count || out@.len() == q0.len(),
            decreases count - out@.len(),
        {
            match self.pop() {
                Some(it) => {
                    let ghost n: int = out@.len() as int;
                    out.push(it);
                    assert(out@.map_values(|it: StorageItem| it@) =~= q0.take(n + 1));
                    assert(self.queue() =~= q0.skip(n + 1));
                },
                None => {
                    assert(q0.skip(out@.len() as int).len() == 0);
                    break;
                },
            }
        }
        out
    }

    /// The dump of every item, in pop order; `None` when the count or a payload length
    /// does not fit in four bytes.
    fn dump(&self) -> (r: Option<Vec<u8>>)
        requires
            self.wf(),
        ensures
            r is Some <==> encodable(self.queue()),
            r is Some ==> r->0@ == encoding(self.queue()),
    {
        let ghost q = self.queue();
        let mut copy = self.duplicate();
        let mut items: Vec<StorageItem> = Vec::new();
        loop
            invariant
                copy.wf(),
                items@.len() <= q.len(),
                views(items@) == q.take(items@.len() as int),
                copy.queue() == q.skip(items@.len() as int),
            ensures
                views(items@) == q,
            decreases copy.queue().len(),
        {
            match copy.pop() {
                Some(it) => {
                    let ghost n: int = items@.len() as int;
                    items.push(it);
                    assert(views(items@) =~= q.take(n + 1));
                    assert(copy.queue() =~= q.skip(n + 1));
                },
                None => {
                    assert(q.take(items@.len() as int) =~= q);
                    break;
                },
            }
        }
        encode(&items)
    }

    /// Replaces every item with those of a dump, pushed in the order in which they stand
    /// there; bytes that are not a dump change nothing.
    fn load(&mut self, bytes: &[u8]) -> (r: bool)
        requires
            old(self).wf(),
        ensures
            final(self).wf(),
            r == decoding(bytes@) is Some,
            r ==> final(self).queue() == pushed_all(Seq::<Item>::empty(), decoding(bytes@)->0),
            !r ==> final(self).queue() == old(self).queue(),
    {
        match decode(bytes) {
            None => false,
            Some(items) => {
                let ghost s = views(items@);
                self.clear();
                let mut i: usize = 0;
                assert(s.take(0) =~= Seq::<Item>::empty());
                while i < items.len()
                    invariant
                        self.wf(),
                        s == views(items@),
                        i <= s.len(),
                        self.queue() == pushed_all(Seq::<Item>::empty(), s.take(i as int)),
                    decreases s.len() - i,
                {
                    let it = items[i].copy();
                    self.push(it.priority, it.data);
                    assert(s.take(i + 1).drop_last() =~= s.take(i as int));
                    i = i + 1;
                }
                assert(s.take(i as int) =~= s);
                true
            },
        }
    }
}

/// Pushing the items of a queue in pop order, onto an empty store, builds that queue.
pub proof fn lemma_pushed_all_sorted(q: Seq<Item>)
    requires
        sorted(q),
    ensures
        pushed_all(Seq::<Item>::empty(), q) == q,
    decreases q.len(),
{
    if q.len() > 0 {
        let front = q.drop_last();
        let x = q.last();
        lemma_pushed_all_sorted(front);
        lemma_first_below_bounds(front, x.0, 0);
        lemma_first_below_at_end(front, x.0, 0);
        assert(front.insert(front.len() as int, x) =~= q);
    }
}

proof fn lemma_first_below_at_end(q: Seq<Item>, p: u16, i: int)
    requires
        0 <= i <= q.len(),
        forall|j: int| 0 <= j < q.len() ==> q[j].0 >= p,
    ensures
        first_below(q, p, i) == q.len(),
    decreases q.len() - i,
{
    if i < q.len() {
        lemma_first_below_at_end(q, p, i + 1);
    }
}

/// Loading a dump into an empty store gives back the store that was dumped: the same
/// items, priorities and payload bytes, in the same pop order.
pub proof fn lemma_dump_then_load(q: Seq<Item>)
    requires
        sorted(q),
        encodable(q),
    ensures
        decoding(encoding(q)) == Some(q),
        pushed_all(Seq::<Item>::empty(), decoding(encoding(q))->0) == q,
{
    lemma_decoding_encoding(q);
    lemma_pushed_all_sorted(q);
}

/// Of two items pushed one after the other, the first leaves first when its priority is
/// at least that of the second (FIFO among equals), and last when it is lower. Pushes
/// and pops keep the relative order of the items already queued.
pub proof fn lemma_push_order(q: Seq<Item>, p1: u16, d1: Seq<u8>, p2: u16, d2: Seq<u8>)
    requires
        sorted(q),
    ensures
        ({
            let q1 = pushed(q, p1, d1);
            let q2 = pushed(q1, p2, d2);
            let k1 = first_below(q, p1, 0);
            let k2 = first_below(q1, p2, 0);
            let a = if k2 <= k1 { k1 + 1 } else { k1 };
            &&& q2[a] == (p1, d1)
            &&& q2[k2] == (p2, d2)
            &&& p1 >= p2 ==> a < k2
            &&& p1 < p2 ==> k2 < a
        }),
{
    let q1 = pushed(q, p1, d1);
    lemma_first_below_sorted(q, p1);
    lemma_pushed_sorted(q, p1, d1);
    lemma_first_below_sorted(q1, p2);
    let k1 = first_below(q, p1, 0);
    let k2 = first_below(q1, p2, 0);
    assert(q1[k1] == (p1, d1));
    if p1 >= p2 {
        assert(k2 > k1);
    } else {
        assert(k2 <= k1);
    }
}

/// The item that leaves next has a priority at least that of every item left behind,
/// so an item never leaves while one of higher priority waits.
pub proof fn lemma_pop_highest_first(q: Seq<Item>, j: int)
    requires
        sorted(q),
        0 < j < q.len(),
    ensures
        q[0].0 >= q[j].0,
        q.drop_first()[j - 1] == q[j],
{
}

} // verus!
