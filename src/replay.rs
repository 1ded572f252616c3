use vstd::prelude::*;
use crate::storage::{Item, Storage, StorageItem, pushed, copy_bytes, views};
use vstd::seq_lib::{lemma_multiset_commutative, to_multiset_build, to_multiset_insert};

verus! {

/// One call on a store.
pub enum Op {
    Push { priority: u16, data: Vec<u8> },
    Pop { count: usize },
}

/// The number of items a pop of `count` takes from `q`.
pub open spec fn taken(q: Seq<Item>, count: usize) -> int {
    if count < q.len() {
        count as int
    } else {
        q.len() as int
    }
}

/// The queue after the calls `ops` on an empty store.
pub open spec fn replay_queue(ops: Seq<Op>) -> Seq<Item>
    decreases ops.len(),
{
    if ops.len() == 0 {
        Seq::<Item>::empty()
    } else {
        let q = replay_queue(ops.drop_last());
        match ops.last() {
            Op::Push { priority, data } => pushed(q, priority, data@),
            Op::Pop { count } => q.skip(taken(q, count)),
        }
    }
}

/// What each pop among `ops` returns, in order.
pub open spec fn replay_out(ops: Seq<Op>) -> Seq<Seq<Item>>
    decreases ops.len(),
{
    if ops.len() == 0 {
        Seq::<Seq<Item>>::empty()
    } else {
        let q = replay_queue(ops.drop_last());
        let out = replay_out(ops.drop_last());
        match ops.last() {
            Op::Push { .. } => out,
            Op::Pop { count } => out.push(q.take(taken(q, count))),
        }
    }
}

/// Every item pushed by `ops`, in order.
pub open spec fn pushed_items(ops: Seq<Op>) -> Seq<Item>
    decreases ops.len(),
{
    if ops.len() == 0 {
        Seq::<Item>::empty()
    } else {
        match ops.last() {
            Op::Push { priority, data } => pushed_items(ops.drop_last()).push((priority, data@)),
            Op::Pop { .. } => pushed_items(ops.drop_last()),
        }
    }
}

/// Every item returned by the pops of `ops`, in order.
pub open spec fn popped_items(ops: Seq<Op>) -> Seq<Item>
    decreases ops.len(),
{
    if ops.len() == 0 {
        Seq::<Item>::empty()
    } else {
        let q = replay_queue(ops.drop_last());
        match ops.last() {
            Op::Push { .. } => popped_items(ops.drop_last()),
            Op::Pop { count } => popped_items(ops.drop_last()) + q.take(taken(q, count)),
        }
    }
}

/// However pushes and pops interleave, each pushed item is either returned by exactly
/// one pop or still queued: nothing is lost and nothing is returned twice. Calls from
/// several clients, serialized by the store's lock, are one such sequence.
pub proof fn lemma_replay_conserves(ops: Seq<Op>)
    ensures
        pushed_items(ops).to_multiset() == popped_items(ops).to_multiset().add(replay_queue(ops).to_multiset()),
    decreases ops.len(),
{
    broadcast use vstd::multiset::group_multiset_axioms;

    if ops.len() > 0 {
        let pre = ops.drop_last();
        lemma_replay_conserves(pre);
        let q = replay_queue(pre);
        match ops.last() {
            Op::Push { priority, data } => {
                let x: Item = (priority, data@);
                to_multiset_build(pushed_items(pre), x);
                crate::storage::lemma_first_below_bounds(q, priority, 0);
                to_multiset_insert(q, crate::storage::first_below(q, priority, 0), x);
                assert(pushed_items(ops).to_multiset() =~= popped_items(ops).to_multiset().add(replay_queue(ops).to_multiset()));
            },
            Op::Pop { count } => {
                let n = taken(q, count);
                let t = q.take(n);
                assert(q =~= t + q.skip(n));
                lemma_multiset_commutative(t, q.skip(n));
                lemma_multiset_commutative(popped_items(pre), t);
                assert(pushed_items(ops).to_multiset() =~= popped_items(ops).to_multiset().add(replay_queue(ops).to_multiset()));
            },
        }
    } else {
        broadcast use vstd::seq_lib::group_to_multiset_ensures;

        assert(pushed_items(ops).to_multiset() =~= popped_items(ops).to_multiset().add(replay_queue(ops).to_multiset()));
    }
}

/// Runs `ops` on a new store of kind `S` and gives what each pop returned. The result
/// depends on `ops` alone: every strategy returns the same items in the same order.
pub fn replay<S: Storage>(ops: &Vec<Op>) -> (r: Vec<Vec<StorageItem>>)
    ensures
        r@.len() == replay_out(ops@).len(),
        forall|i: int| 0 <= i < r@.len() ==> views(#[trigger] r@[i]@) == replay_out(ops@)[i],
{
    let mut s = S::new();
    let mut out: Vec<Vec<StorageItem>> = Vec::new();
    let mut i: usize = 0;
    while i < ops.len()
        invariant
            i <= ops@.len(),
            s.wf(),
            s.queue() == replay_queue(ops@.take(i as int)),
            out@.len() == replay_out(ops@.take(i as int)).len(),
            forall|j: int| 0 <= j < out@.len() ==> views(#[trigger] out@[j]@) == replay_out(ops@.take(i as int))[j],
        decreases ops@.len() - i,
    {
        let ghost pre = ops@.take(i as int);
        assert(ops@.take(i + 1).drop_last() =~= pre);
        assert(ops@.take(i + 1).last() == ops@[i as int]);
        match &ops[i] {
            Op::Push { priority, data } => {
                s.push(*priority, Box::new(copy_bytes(data)));
            },
            Op::Pop { count } => {
                let items = s.pop_many(*count);
                out.push(items);
            },
        }
        i = i + 1;
    }
    assert(ops@.take(i as int) =~= ops@);
    out
}

} // verus!
