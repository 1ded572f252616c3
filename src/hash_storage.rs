use vstd::prelude::*;
use std::collections::HashMap;
use crate::storage::{Item, Storage, StorageItem, sorted, first_below, pushed,
    lemma_first_below_bounds, views};

verus! {

broadcast use vstd::std_specs::hash::group_hash_axioms;

/// The priority-bucketed strategy: one FIFO bucket per priority present, and the list
/// of those priorities from greatest to least.
pub struct HashStorage {
    elements: HashMap<u16, Vec<StorageItem>>,
    priorities: Vec<u16>,
}

/// The buckets of `keys`, in that order, one after the other.
pub open spec fn flatten(keys: Seq<u16>, m: Map<u16, Vec<StorageItem>>) -> Seq<Item>
    decreases keys.len(),
{
    if keys.len() == 0 {
        Seq::<Item>::empty()
    } else {
        views(m[keys[0]]@) + flatten(keys.drop_first(), m)
    }
}

/// Each bucket of `keys` holds only items of its own priority.
pub open spec fn buckets_hold(keys: Seq<u16>, m: Map<u16, Vec<StorageItem>>) -> bool {
    forall|i: int, j: int| 0 <= i < keys.len() && 0 <= j < m[keys[i]]@.len() ==> (#[trigger] m[keys[i]]@[j]).priority == keys[i]
}

/// Keys strictly decreasing, exactly the keys of the map, each bucket non-empty and
/// holding only items of its own priority.
pub open spec fn buckets_wf(keys: Seq<u16>, m: Map<u16, Vec<StorageItem>>) -> bool {
    &&& forall|i: int, j: int| 0 <= i < j < keys.len() ==> keys[i] > keys[j]
    &&& forall|k: u16| m.contains_key(k) <==> keys.contains(k)
    &&& forall|i: int| 0 <= i < keys.len() ==> m[keys[i]]@.len() > 0
    &&& buckets_hold(keys, m)
}

proof fn lemma_flatten_frame(keys: Seq<u16>, m: Map<u16, Vec<StorageItem>>, m2: Map<u16, Vec<StorageItem>>)
    requires
        forall|i: int| 0 <= i < keys.len() ==> views(m[keys[i]]@) == views(m2[keys[i]]@),
    ensures
        flatten(keys, m) == flatten(keys, m2),
    decreases keys.len(),
{
    if keys.len() > 0 {
        lemma_flatten_frame(keys.drop_first(), m, m2);
    }
}

/// Every item of the buckets of `keys` has a priority among `keys`, so below `bound`
/// when all keys are.
proof fn lemma_flatten_below(keys: Seq<u16>, m: Map<u16, Vec<StorageItem>>, bound: int)
    requires
        buckets_hold(keys, m),
        forall|i: int| 0 <= i < keys.len() ==> keys[i] < bound,
    ensures
        forall|i: int| 0 <= i < flatten(keys, m).len() ==> flatten(keys, m)[i].0 < bound,
    decreases keys.len(),
{
    if keys.len() > 0 {
        let rest = keys.drop_first();
        assert forall|i: int, j: int| 0 <= i < rest.len() && 0 <= j < m[rest[i]]@.len()
            implies (#[trigger] m[rest[i]]@[j]).priority == rest[i] by {
            assert(rest[i] == keys[i + 1]);
        }
        lemma_flatten_below(rest, m, bound);
        let b = views(m[keys[0]]@);
        assert forall|i: int| 0 <= i < flatten(keys, m).len() implies flatten(keys, m)[i].0 < bound by {
            if i < b.len() {
                assert(m[keys[0]]@[i].priority == keys[0]);
            } else {
                assert(flatten(keys, m)[i] == flatten(rest, m)[i - b.len()]);
            }
        }
    }
}


/// The insertion point of `p` in a list of priorities is at `i`.
pub open spec fn key_slot(keys: Seq<u16>, p: u16, i: int) -> bool {
    &&& 0 <= i <= keys.len()
    &&& forall|j: int| 0 <= j < i ==> keys[j] > p
    &&& i < keys.len() ==> keys[i] <= p
}

/// The list of priorities once `p` is present.
pub open spec fn with_key(keys: Seq<u16>, p: u16, i: int) -> Seq<u16> {
    if i < keys.len() && keys[i] == p {
        keys
    } else {
        keys.insert(i, p)
    }
}

proof fn lemma_first_below_at(q: Seq<Item>, p: u16, k: int, i: int)
    requires
        0 <= i <= k <= q.len(),
        forall|j: int| 0 <= j < k ==> q[j].0 >= p,
        k < q.len() ==> q[k].0 < p,
    ensures
        first_below(q, p, i) == k,
    decreases k - i,
{
    if i < k {
        lemma_first_below_at(q, p, k, i + 1);
    }
}

/// Decreasing keys with non-empty buckets of their own priority.
pub open spec fn keys_ordered(keys: Seq<u16>, m: Map<u16, Vec<StorageItem>>) -> bool {
    &&& forall|i: int, j: int| 0 <= i < j < keys.len() ==> keys[i] > keys[j]
    &&& forall|i: int| 0 <= i < keys.len() ==> m[keys[i]]@.len() > 0
    &&& buckets_hold(keys, m)
}

proof fn lemma_flatten_sorted(keys: Seq<u16>, m: Map<u16, Vec<StorageItem>>)
    requires
        keys_ordered(keys, m),
    ensures
        sorted(flatten(keys, m)),
    decreases keys.len(),
{
    if keys.len() > 0 {
        lemma_keys_ordered_rest(keys, m);
        let rest = keys.drop_first();
        lemma_flatten_sorted(rest, m);
        lemma_flatten_below(rest, m, keys[0] as int);
        let b0 = views(m[keys[0]]@);
        let fr = flatten(rest, m);
        let f = flatten(keys, m);
        assert(f == b0 + fr);
        assert forall|i: int, j: int| 0 <= i < j < f.len() implies f[i].0 >= f[j].0 by {
            if j < b0.len() {
                assert(m[keys[0]]@[i].priority == keys[0]);
                assert(m[keys[0]]@[j].priority == keys[0]);
            } else if i < b0.len() {
                assert(m[keys[0]]@[i].priority == keys[0]);
                assert(f[j] == fr[j - b0.len()]);
            } else {
                assert(f[i] == fr[i - b0.len()]);
                assert(f[j] == fr[j - b0.len()]);
            }
        }
    }
}

proof fn lemma_keys_ordered_rest(keys: Seq<u16>, m: Map<u16, Vec<StorageItem>>)
    requires
        keys.len() > 0,
        keys_ordered(keys, m),
    ensures
        keys_ordered(keys.drop_first(), m),
        forall|j: int| 0 <= j < keys.drop_first().len() ==> keys.drop_first()[j] < keys[0],
        !keys.drop_first().contains(keys[0]),
        flatten(keys, m).len() > 0,
        flatten(keys, m)[0].0 == keys[0],
{
    let rest = keys.drop_first();
    assert forall|i: int, j: int| 0 <= i < rest.len() && 0 <= j < m[rest[i]]@.len()
        implies (#[trigger] m[rest[i]]@[j]).priority == rest[i] by {
        assert(rest[i] == keys[i + 1]);
    }
    assert forall|i: int| 0 <= i < rest.len() implies m[rest[i]]@.len() > 0 by {
        assert(rest[i] == keys[i + 1]);
    }
    assert forall|j: int| 0 <= j < rest.len() implies rest[j] < keys[0] by {
        assert(rest[j] == keys[j + 1]);
    }
    assert(m[keys[0]]@[0].priority == keys[0]);
}

/// Adding an item to the bucket of its priority (a new bucket where there was none)
/// pushes it onto the flattened queue.
proof fn lemma_flatten_push(keys: Seq<u16>, m: Map<u16, Vec<StorageItem>>, p: u16, d: Seq<u8>, i: int, b: Vec<StorageItem>)
    requires
        keys_ordered(keys, m),
        key_slot(keys, p, i),
        views(b@) == (if i < keys.len() && keys[i] == p { views(m[p]@) } else { Seq::<Item>::empty() }).push((p, d)),
    ensures
        flatten(with_key(keys, p, i), m.insert(p, b)) == pushed(flatten(keys, m), p, d),
    decreases keys.len(),
{
    let m2 = m.insert(p, b);
    let x: Item = (p, d);
    if keys.len() == 0 {
        assert(with_key(keys, p, i) =~= seq![p]);
        assert(flatten(seq![p], m2) =~= views(b@) + flatten(seq![p].drop_first(), m2));
        assert(pushed(flatten(keys, m), p, d) =~= seq![x]);
    } else {
        lemma_keys_ordered_rest(keys, m);
        let rest = keys.drop_first();
        let f = flatten(keys, m);
        let b0 = views(m[keys[0]]@);
        let fr = flatten(rest, m);
        assert(f == b0 + fr);
        if keys[0] == p {
            assert(i == 0);
            lemma_flatten_frame(rest, m, m2);
            lemma_flatten_below(rest, m, p as int);
            assert forall|j: int| 0 <= j < b0.len() implies b0[j].0 >= p by {
                assert(m[keys[0]]@[j].priority == keys[0]);
            }
            lemma_first_below_at(f, p, b0.len() as int, 0);
            assert(flatten(keys, m2) == views(b@) + flatten(rest, m2));
            assert(pushed(f, p, d) =~= views(b@) + fr);
        } else if keys[0] < p {
            assert(i == 0);
            assert(!keys.contains(p));
            lemma_flatten_frame(keys, m, m2);
            let k2 = with_key(keys, p, i);
            assert(k2.drop_first() =~= keys);
            assert(flatten(k2, m2) == views(b@) + flatten(keys, m2));
            assert(first_below(f, p, 0) == 0);
            assert(pushed(f, p, d) =~= seq![x] + f);
            assert(views(b@) =~= seq![x]);
        } else {
            assert(i >= 1);
            assert(key_slot(rest, p, i - 1)) by {
                assert forall|j: int| 0 <= j < i - 1 implies rest[j] > p by {
                    assert(rest[j] == keys[j + 1]);
                }
            }
            assert((i < keys.len() && keys[i] == p) == (i - 1 < rest.len() && rest[i - 1] == p));
            lemma_flatten_push(rest, m, p, d, i - 1, b);
            let k2 = with_key(keys, p, i);
            assert(k2.drop_first() =~= with_key(rest, p, i - 1));
            assert(k2[0] == keys[0]);
            assert(flatten(k2, m2) == views(m2[keys[0]]@) + flatten(with_key(rest, p, i - 1), m2));
            assert forall|j: int| 0 <= j < b0.len() implies b0[j].0 >= p by {
                assert(m[keys[0]]@[j].priority == keys[0]);
            }
            lemma_first_below_bounds(fr, p, 0);
            let fb = first_below(fr, p, 0);
            assert forall|j: int| 0 <= j < b0.len() + fb implies f[j].0 >= p by {
                if j >= b0.len() {
                    assert(f[j] == fr[j - b0.len()]);
                }
            }
            if b0.len() + fb < f.len() {
                assert(f[b0.len() + fb] == fr[fb]);
            }
            lemma_first_below_at(f, p, b0.len() + fb, 0);
            assert(pushed(f, p, d) =~= b0 + pushed(fr, p, d));
        }
    }
}


/// Making `p` present, with a non-empty bucket of its own priority, keeps the buckets
/// well-formed.
proof fn lemma_slot_present(keys: Seq<u16>, m: Map<u16, Vec<StorageItem>>, p: u16, i: int)
    requires
        buckets_wf(keys, m),
        key_slot(keys, p, i),
    ensures
        m.contains_key(p) == (i < keys.len() && keys[i] == p),
{
    if m.contains_key(p) {
        assert(keys.contains(p));
        let j = choose|j: int| 0 <= j < keys.len() && keys[j] == p;
        if j < i {
            assert(keys[j] > p);
        } else if j > i {
            assert(keys[i] > keys[j]);
        }
    }
    if i < keys.len() && keys[i] == p {
        assert(keys.contains(p));
    }
}

proof fn lemma_with_key_wf(keys: Seq<u16>, m: Map<u16, Vec<StorageItem>>, p: u16, i: int, b: Vec<StorageItem>)
    requires
        buckets_wf(keys, m),
        key_slot(keys, p, i),
        b@.len() > 0,
        forall|j: int| 0 <= j < b@.len() ==> b@[j].priority == p,
    ensures
        buckets_wf(with_key(keys, p, i), m.insert(p, b)),
        m.contains_key(p) == (i < keys.len() && keys[i] == p),
{
    let k2 = with_key(keys, p, i);
    let m2 = m.insert(p, b);
    lemma_slot_present(keys, m, p, i);
    if i < keys.len() && keys[i] == p {
        assert(keys.contains(p));
    } else {
        assert forall|a: int, c: int| 0 <= a < c < k2.len() implies k2[a] > k2[c] by {
            if c < i {
            } else if c == i {
            } else if a < i {
                assert(k2[c] == keys[c - 1]);
            } else if a == i {
                assert(k2[c] == keys[c - 1]);
            } else {
                assert(k2[c] == keys[c - 1]);
                assert(k2[a] == keys[a - 1]);
            }
        }
        assert forall|k: u16| m2.contains_key(k) <==> k2.contains(k) by {
            if k2.contains(k) && k != p {
                let j = choose|j: int| 0 <= j < k2.len() && k2[j] == k;
                if j < i {
                    assert(keys[j] == k);
                } else {
                    assert(keys[j - 1] == k);
                }
                assert(keys.contains(k));
            }
            if m.contains_key(k) && k != p {
                assert(keys.contains(k));
                let j = choose|j: int| 0 <= j < keys.len() && keys[j] == k;
                if j < i {
                    assert(k2[j] == k);
                } else {
                    assert(k2[j + 1] == k);
                }
            }
            if k == p {
                assert(k2[i] == p);
            }
        }
    }
    assert forall|a: int| 0 <= a < k2.len() implies m2[k2[a]]@.len() > 0 by {
        if k2[a] != p {
            if i < keys.len() && keys[i] == p {
            } else if a < i {
            } else {
                assert(k2[a] == keys[a - 1]);
            }
        }
    }
    assert forall|a: int, c: int| 0 <= a < k2.len() && 0 <= c < m2[k2[a]]@.len()
        implies (#[trigger] m2[k2[a]]@[c]).priority == k2[a] by {
        if k2[a] != p {
            if i < keys.len() && keys[i] == p {
            } else if a < i {
            } else {
                assert(k2[a] == keys[a - 1]);
            }
        }
    }
}

impl HashStorage {
    /// The items of the bucket of `p`, copied.
    fn copy_bucket(&self, p: u16) -> (r: Vec<StorageItem>)
        requires
            self.elements@.contains_key(p),
        ensures
            views(r@) == views(self.elements@[p]@),
            r@.len() == self.elements@[p]@.len(),
            forall|j: int| 0 <= j < r@.len() ==> r@[j].priority == self.elements@[p]@[j].priority,
    {
        let b = self.elements.get(&p).unwrap();
        let mut r: Vec<StorageItem> = Vec::new();
        let mut i: usize = 0;
        while i < b.len()
            invariant
                b == self.elements@[p],
                i <= b@.len(),
                r@.len() == i,
                forall|j: int| 0 <= j < i ==> r@[j]@ == b@[j]@,
            decreases b@.len() - i,
        {
            r.push(b[i].copy());
            i = i + 1;
        }
        assert(views(r@) =~= views(b@));
        r
    }
}

impl Storage for HashStorage {
    closed spec fn wf(&self) -> bool {
        buckets_wf(self.priorities@, self.elements@)
    }

    closed spec fn queue(&self) -> Seq<Item> {
        flatten(self.priorities@, self.elements@)
    }

    proof fn lemma_queue_sorted(&self) {
        lemma_flatten_sorted(self.priorities@, self.elements@);
    }

    fn new() -> (r: Self) {
        let r = HashStorage { elements: HashMap::new(), priorities: Vec::new() };
        assert(r.priorities@ =~= Seq::<u16>::empty());
        r
    }

    fn push(&mut self, priority: u16, payload: Box<Vec<u8>>) {
        let ghost keys = self.priorities@;
        let ghost m = self.elements@;
        let ghost d = payload@;
        let present = self.elements.contains_key(&priority);
        let mut i: usize = 0;
        let ghost mut slot: int = 0;
        if present {
            proof {
                assert(keys.contains(priority));
                slot = choose|j: int| 0 <= j < keys.len() && keys[j] == priority;
                assert(key_slot(keys, priority, slot));
            }
        } else {
            while i < self.priorities.len() && self.priorities[i] > priority
                invariant
                    keys == self.priorities@,
                    i <= keys.len(),
                    forall|j: int| 0 <= j < i ==> keys[j] > priority,
                decreases keys.len() - i,
            {
                i = i + 1;
            }
            proof {
                slot = i as int;
            }
        }
        proof {
            lemma_slot_present(keys, m, priority, slot);
        }
        let mut bucket = match self.elements.remove(&priority) {
            Some(b) => b,
            None => Vec::new(),
        };
        let ghost b0 = bucket@;
        assert(b0 == if present { m[priority]@ } else { Seq::<StorageItem>::empty() });
        bucket.push(StorageItem { priority, data: payload });
        proof {
            assert(views(bucket@) =~= views(b0).push((priority, d)));
            assert(views(bucket@) =~= (if present { views(m[priority]@) } else { Seq::<Item>::empty() }).push((priority, d)));
            if present {
                assert(bucket@.drop_last() == m[priority]@);
                assert(m[priority]@ == m[keys[slot]]@);
                assert forall|j: int| 0 <= j < bucket@.len() implies bucket@[j].priority == priority by {
                    if j < bucket@.len() - 1 {
                        assert(bucket@[j] == m[keys[slot]]@[j]);
                    }
                }
            }
            lemma_with_key_wf(keys, m, priority, slot, bucket);
            lemma_flatten_push(keys, m, priority, d, slot, bucket);
        }
        let ghost gb = bucket;
        self.elements.insert(priority, bucket);
        if !present {
            self.priorities.insert(i, priority);
        }
        assert(self.elements@ =~= m.insert(priority, gb));
        assert(self.priorities@ =~= with_key(keys, priority, slot));
    }

    fn pop(&mut self) -> (r: Option<StorageItem>) {
        let ghost keys = self.priorities@;
        let ghost m = self.elements@;
        if self.priorities.len() == 0 {
            return None;
        }
        let p = self.priorities[0];
        proof {
            lemma_keys_ordered_rest(keys, m);
            assert(keys.contains(p));
        }
        let mut bucket = self.elements.remove(&p).unwrap();
        let it = bucket.remove(0);
        let ghost rest = keys.drop_first();
        proof {
            assert(flatten(keys, m) == views(m[p]@) + flatten(rest, m));
        }
        if bucket.len() > 0 {
            let ghost gb = bucket;
            self.elements.insert(p, bucket);
            proof {
                let m2 = self.elements@;
                assert(m2 =~= m.insert(p, gb));
                lemma_flatten_frame(rest, m, m2);
                assert(flatten(keys, m2) == views(gb@) + flatten(rest, m2));
                assert(views(gb@) =~= views(m[p]@).drop_first());
                assert(flatten(keys, m2) =~= flatten(keys, m).drop_first());
                assert forall|a: int, c: int| 0 <= a < keys.len() && 0 <= c < m2[keys[a]]@.len()
                    implies (#[trigger] m2[keys[a]]@[c]).priority == keys[a] by {
                    if a == 0 {
                        assert(m2[keys[a]]@[c] == m[p]@[c + 1]);
                    }
                }
                assert forall|a: int| 0 <= a < keys.len() implies m2[keys[a]]@.len() > 0 by {
                    if a != 0 {
                        assert(keys[a] != p);
                    }
                }
            }
        } else {
            self.priorities.remove(0);
            proof {
                let m2 = self.elements@;
                assert(self.priorities@ =~= rest);
                lemma_flatten_frame(rest, m, m2);
                assert(views(m[p]@).len() == 1);
                assert(flatten(rest, m2) =~= flatten(keys, m).drop_first());
                assert forall|k: u16| m2.contains_key(k) <==> rest.contains(k) by {
                    if m.contains_key(k) && k != p {
                        assert(keys.contains(k));
                        let j = choose|j: int| 0 <= j < keys.len() && keys[j] == k;
                        assert(j != 0);
                        assert(rest[j - 1] == k);
                    }
                    if rest.contains(k) {
                        let j = choose|j: int| 0 <= j < rest.len() && rest[j] == k;
                        assert(keys[j + 1] == k);
                        assert(keys.contains(k));
                    }
                }
                assert forall|a: int, c: int| 0 <= a < rest.len() && 0 <= c < m2[rest[a]]@.len()
                    implies (#[trigger] m2[rest[a]]@[c]).priority == rest[a] by {
                    assert(rest[a] == keys[a + 1]);
                }
                assert forall|a: int| 0 <= a < rest.len() implies m2[rest[a]]@.len() > 0 by {
                    assert(rest[a] == keys[a + 1]);
                }
            }
        }
        Some(it)
    }

    fn max_priority(&self) -> (r: Option<u16>) {
        if self.priorities.len() == 0 {
            None
        } else {
            proof {
                lemma_keys_ordered_rest(self.priorities@, self.elements@);
            }
            Some(self.priorities[0])
        }
    }

    fn clear(&mut self) {
        self.elements.clear();
        self.priorities.clear();
        assert(self.priorities@ =~= Seq::<u16>::empty());
    }

    fn duplicate(&self) -> (r: Self) {
        let ghost keys = self.priorities@;
        let ghost m = self.elements@;
        let mut elements: HashMap<u16, Vec<StorageItem>> = HashMap::new();
        let mut priorities: Vec<u16> = Vec::new();
        let mut i: usize = 0;
        while i < self.priorities.len()
            invariant
                keys == self.priorities@,
                m == self.elements@,
                buckets_wf(keys, m),
                i <= keys.len(),
                priorities@ == keys.take(i as int),
                forall|k: u16| elements@.contains_key(k) <==> priorities@.contains(k),
                forall|j: int| 0 <= j < i ==> views(elements@[keys[j]]@) == views(m[keys[j]]@)
                    && elements@[keys[j]]@.len() == m[keys[j]]@.len()
                    && forall|c: int| 0 <= c < m[keys[j]]@.len() ==> (#[trigger] elements@[keys[j]]@[c]).priority == keys[j],
            decreases keys.len() - i,
        {
            let p = self.priorities[i];
            assert(keys.contains(p));
            let b = self.copy_bucket(p);
            proof {
                assert forall|c: int| 0 <= c < b@.len() implies b@[c].priority == p by {
                    assert(m[keys[i as int]]@[c].priority == keys[i as int]);
                }
                assert forall|j: int| 0 <= j < i implies keys[j] != p by {
                    assert(keys[j] > keys[i as int]);
                }
            }
            let ghost pr0 = priorities@;
            elements.insert(p, b);
            priorities.push(p);
            i = i + 1;
            proof {
                assert(priorities@ =~= keys.take(i as int));
                assert forall|k: u16| elements@.contains_key(k) <==> priorities@.contains(k) by {
                    if k == p {
                        assert(priorities@[i - 1] == p);
                    } else if pr0.contains(k) {
                        let j = choose|j: int| 0 <= j < pr0.len() && pr0[j] == k;
                        assert(priorities@[j] == k);
                    } else if priorities@.contains(k) {
                        let j = choose|j: int| 0 <= j < priorities@.len() && priorities@[j] == k;
                        assert(pr0[j] == k);
                    }
                }
            }
        }
        assert(priorities@ =~= keys);
        let r = HashStorage { elements, priorities };
        proof {
            lemma_flatten_frame(keys, m, r.elements@);
            assert forall|a: int, c: int| 0 <= a < keys.len() && 0 <= c < r.elements@[keys[a]]@.len()
                implies (#[trigger] r.elements@[keys[a]]@[c]).priority == keys[a] by {
            }
        }
        r
    }
}

} // verus!
