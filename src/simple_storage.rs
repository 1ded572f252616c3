use vstd::prelude::*;
use crate::storage::{Item, Storage, StorageItem, sorted, first_below, pushed, pushed_all,
    lemma_pushed_sorted, lemma_first_below_bounds, views};

verus! {

/// The unordered-list strategy: a push appends, a pop scans for the first item of the
/// greatest priority and removes it, keeping the others in the order they came.
pub struct SimpleStorage {
    elements: Vec<StorageItem>,
}

/// The pop order of items kept in arrival order.
pub open spec fn arrival_queue(s: Seq<Item>) -> Seq<Item> {
    pushed_all(Seq::<Item>::empty(), s)
}

pub proof fn lemma_arrival_sorted(s: Seq<Item>)
    ensures
        sorted(arrival_queue(s)),
        arrival_queue(s).len() == s.len(),
    decreases s.len(),
{
    if s.len() > 0 {
        lemma_arrival_sorted(s.drop_last());
        lemma_pushed_sorted(arrival_queue(s.drop_last()), s.last().0, s.last().1);
    }
}

/// Priorities that are all below `m` in arrival order stay below `m` in pop order.
pub proof fn lemma_arrival_below(s: Seq<Item>, m: int)
    requires
        forall|i: int| 0 <= i < s.len() ==> s[i].0 < m,
    ensures
        forall|i: int| 0 <= i < arrival_queue(s).len() ==> arrival_queue(s)[i].0 < m,
    decreases s.len(),
{
    if s.len() > 0 {
        let s1 = s.drop_last();
        assert forall|i: int| 0 <= i < s1.len() implies s1[i].0 < m by {
            assert(s1[i] == s[i]);
        }
        lemma_arrival_below(s1, m);
        lemma_arrival_sorted(s1);
        let q = arrival_queue(s1);
        lemma_first_below_bounds(q, s.last().0, 0);
    }
}

/// Dropping the head of a queue moves every insertion point one place forward.
pub proof fn lemma_first_below_shift(q: Seq<Item>, p: u16, i: int)
    requires
        q.len() > 0,
        0 <= i <= q.len() - 1,
    ensures
        first_below(q.drop_first(), p, i) == first_below(q, p, i + 1) - 1,
    decreases q.len() - i,
{
    if i < q.len() - 1 {
        assert(q.drop_first()[i] == q[i + 1]);
        if q[i + 1].0 >= p {
            lemma_first_below_shift(q, p, i + 1);
        }
    }
}

/// The head of the pop order is the earliest item of greatest priority, and the rest of
/// the pop order is that of the remaining items.
pub proof fn lemma_arrival_pop(s: Seq<Item>, j: int)
    requires
        0 <= j < s.len(),
        forall|i: int| 0 <= i < s.len() ==> s[i].0 <= s[j].0,
        forall|i: int| 0 <= i < j ==> s[i].0 < s[j].0,
    ensures
        arrival_queue(s).len() == s.len(),
        arrival_queue(s)[0] == s[j],
        arrival_queue(s).drop_first() == arrival_queue(s.remove(j)),
    decreases s.len(),
{
    let n = s.len();
    let s1 = s.drop_last();
    let x = s.last();
    lemma_arrival_sorted(s);
    lemma_arrival_sorted(s1);
    let q1 = arrival_queue(s1);
    assert(arrival_queue(s) == pushed(q1, x.0, x.1));
    if j == n - 1 {
        assert forall|i: int| 0 <= i < s1.len() implies s1[i].0 < x.0 by {
            assert(s1[i] == s[i]);
        }
        lemma_arrival_below(s1, x.0 as int);
        assert(first_below(q1, x.0, 0) == 0);
        assert(s.remove(j) =~= s1);
        assert(arrival_queue(s).drop_first() =~= q1);
    } else {
        assert forall|i: int| 0 <= i < s1.len() implies s1[i].0 <= s1[j].0 by {
            assert(s1[i] == s[i]);
        }
        lemma_arrival_pop(s1, j);
        lemma_first_below_bounds(q1, x.0, 1);
        let k = first_below(q1, x.0, 0);
        assert(k == first_below(q1, x.0, 1));
        lemma_first_below_shift(q1, x.0, 0);
        let r = s.remove(j);
        assert(r.drop_last() =~= s1.remove(j));
        assert(r.last() == x);
        assert(arrival_queue(r) == pushed(arrival_queue(s1.remove(j)), x.0, x.1));
        assert(arrival_queue(s).drop_first() =~= q1.drop_first().insert(k - 1, (x.0, x.1)));
    }
}

impl SimpleStorage {
    /// Position of the earliest item of greatest priority.
    fn first_max_index(&self) -> (j: usize)
        requires
            self.elements@.len() > 0,
        ensures
            j < self.elements@.len(),
            forall|i: int| 0 <= i < self.elements@.len() ==> self.elements@[i].priority <= self.elements@[j as int].priority,
            forall|i: int| 0 <= i < j ==> self.elements@[i].priority < self.elements@[j as int].priority,
    {
        let mut j: usize = 0;
        let mut i: usize = 1;
        while i < self.elements.len()
            invariant
                1 <= i <= self.elements@.len(),
                j < i,
                forall|k: int| 0 <= k < i ==> self.elements@[k].priority <= self.elements@[j as int].priority,
                forall|k: int| 0 <= k < j ==> self.elements@[k].priority < self.elements@[j as int].priority,
            decreases self.elements@.len() - i,
        {
            if self.elements[i].priority > self.elements[j].priority {
                j = i;
            }
            i = i + 1;
        }
        j
    }
}

impl Storage for SimpleStorage {
    closed spec fn wf(&self) -> bool {
        true
    }

    closed spec fn queue(&self) -> Seq<Item> {
        arrival_queue(views(self.elements@))
    }

    proof fn lemma_queue_sorted(&self) {
        lemma_arrival_sorted(views(self.elements@));
    }

    fn new() -> (r: Self) {
        let r = SimpleStorage { elements: Vec::new() };
        assert(views(r.elements@) =~= Seq::<Item>::empty());
        r
    }

    fn push(&mut self, priority: u16, payload: Box<Vec<u8>>) {
        let ghost s = views(self.elements@);
        self.elements.push(StorageItem { priority, data: payload });
        assert(views(self.elements@).drop_last() =~= s);
    }

    fn pop(&mut self) -> (r: Option<StorageItem>) {
        proof {
            lemma_arrival_sorted(views(self.elements@));
        }
        if self.elements.len() == 0 {
            None
        } else {
            let ghost s = views(self.elements@);
            let j = self.first_max_index();
            proof {
                lemma_arrival_pop(s, j as int);
            }
            let it = self.elements.remove(j);
            assert(views(self.elements@) =~= s.remove(j as int));
            Some(it)
        }
    }

    fn max_priority(&self) -> (r: Option<u16>) {
        proof {
            lemma_arrival_sorted(views(self.elements@));
        }
        if self.elements.len() == 0 {
            None
        } else {
            let j = self.first_max_index();
            proof {
                lemma_arrival_pop(views(self.elements@), j as int);
            }
            Some(self.elements[j].priority)
        }
    }

    fn clear(&mut self) {
        self.elements.clear();
        assert(views(self.elements@) =~= Seq::<Item>::empty());
    }

    fn duplicate(&self) -> (r: Self) {
        let mut elements: Vec<StorageItem> = Vec::new();
        let mut i: usize = 0;
        while i < self.elements.len()
            invariant
                i <= self.elements@.len(),
                elements@.len() == i,
                forall|j: int| 0 <= j < i ==> elements@[j]@ == self.elements@[j]@,
            decreases self.elements@.len() - i,
        {
            elements.push(self.elements[i].copy());
            i = i + 1;
        }
        assert(views(elements@) =~= views(self.elements@));
        SimpleStorage { elements }
    }
}

} // verus!
