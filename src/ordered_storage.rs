use vstd::prelude::*;
use crate::storage::{Item, Storage, StorageItem, sorted, first_below, pushed, views, lemma_pushed_sorted};

verus! {

/// The sorted-list strategy: items are kept in pop order, so a push searches for its
/// place and a pop takes the head.
pub struct OrderedStorage {
    elements: Vec<StorageItem>,
}

impl OrderedStorage {
    pub fn new() -> (r: Self)
        ensures
            r.wf(),
            r.queue() == Seq::<Item>::empty(),
    {
        let r = OrderedStorage { elements: Vec::new() };
        assert(views(r.elements@) =~= Seq::<Item>::empty());
        r
    }
}

impl Storage for OrderedStorage {
    closed spec fn wf(&self) -> bool {
        sorted(self.queue())
    }

    closed spec fn queue(&self) -> Seq<Item> {
        views(self.elements@)
    }

    proof fn lemma_queue_sorted(&self) {
    }

    fn new() -> (r: Self) {
        OrderedStorage::new()
    }

    fn push(&mut self, priority: u16, payload: Box<Vec<u8>>) {
        let ghost q = self.queue();
        let mut index: usize = 0;
        while index < self.elements.len() && self.elements[index].priority >= priority
            invariant
                q == views(self.elements@),
                index <= self.elements@.len(),
                first_below(q, priority, 0) == first_below(q, priority, index as int),
            decreases self.elements@.len() - index,
        {
            index = index + 1;
        }
        proof {
            lemma_pushed_sorted(q, priority, payload@);
        }
        self.elements.insert(index, StorageItem { priority, data: payload });
        assert(views(self.elements@) =~= pushed(q, priority, payload@));
    }

    fn pop(&mut self) -> (r: Option<StorageItem>) {
        if self.elements.len() == 0 {
            None
        } else {
            let ghost q = self.queue();
            let it = self.elements.remove(0);
            assert(views(self.elements@) =~= q.drop_first());
            Some(it)
        }
    }

    fn max_priority(&self) -> (r: Option<u16>) {
        if self.elements.len() == 0 {
            None
        } else {
            Some(self.elements[0].priority)
        }
    }

    fn clear(&mut self) {
        self.elements.clear();
        assert(views(self.elements@) =~= Seq::<Item>::empty());
    }

    fn duplicate(&self) -> (r: Self) {
        let mut elements: Vec<StorageItem> = Vec::new();
        let mut i: usize = 0;
        while i < self.elements.len()
            invariant
                i <= self.elements@.len(),
                elements@.len() == i,
                forall|j: int| 0 <= j < i ==> elements@[j]@ == self.elements@[j]@,
            decreases self.elements@.len() - i,
        {
            elements.push(self.elements[i].copy());
            i = i + 1;
        }
        assert(views(elements@) =~= views(self.elements@));
        OrderedStorage { elements }
    }
}

} // verus!
