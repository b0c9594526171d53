//! The priority-ordered work queue that demand propagation explores the
//! recipe graph with: item names keyed by their propagation depth, smallest
//! depth popped first. Backed by `priority_queue::DoublePriorityQueue`.

use vstd::prelude::*;

use priority_queue::DoublePriorityQueue;

verus! {

#[verifier::external_type_specification]
#[verifier::external_body]
#[verifier::reject_recursive_types(I)]
#[verifier::reject_recursive_types(P)]
#[verifier::reject_recursive_types(H)]
pub struct ExDoublePriorityQueue<I, P, H>(DoublePriorityQueue<I, P, H>);

/// What the work queue holds: a finite map from each queued item name to its
/// current priority (the propagation depth).
pub uninterp spec fn queue_entries(q: DoublePriorityQueue<String, usize>) -> Map<Seq<char>, usize>;

/// Relies on DoublePriorityQueue::new: creates an empty queue.
#[verifier::external_body]
pub(crate) fn queue_new() -> (r: DoublePriorityQueue<String, usize>)
    ensures
        queue_entries(r).dom().finite(),
        forall|k: Seq<char>| !queue_entries(r).contains_key(k),
{
    DoublePriorityQueue::new()
}

/// Relies on DoublePriorityQueue::push_increase: inserts the item with the
/// given priority, or raises an existing entry's priority when the new one is
/// greater, and otherwise changes nothing.
#[verifier::external_body]
pub(crate) fn queue_push_increase(
    q: &mut DoublePriorityQueue<String, usize>,
    item: String,
    priority: usize,
)
    ensures
        queue_entries(*final(q)) == if queue_entries(*old(q)).contains_key(item@)
            && priority <= queue_entries(*old(q))[item@] {
            queue_entries(*old(q))
        } else {
            queue_entries(*old(q)).insert(item@, priority)
        },
{
    q.push_increase(item, priority);
}

/// Relies on DoublePriorityQueue::pop_min: removes and returns an entry whose
/// priority is the smallest queued one, or returns None exactly when the
/// queue is empty.
#[verifier::external_body]
pub(crate) fn queue_pop_min(q: &mut DoublePriorityQueue<String, usize>) -> (r: Option<
    (String, usize),
>)
    ensures
        match r {
            Option::None => (forall|k: Seq<char>| !queue_entries(*old(q)).contains_key(k))
                && queue_entries(*final(q)) == queue_entries(*old(q)),
            Option::Some(ip) => queue_entries(*old(q)).contains_key(ip.0@) && queue_entries(
                *old(q),
            )[ip.0@] == ip.1 && (forall|k: Seq<char>|
                queue_entries(*old(q)).contains_key(k) ==> ip.1 <= queue_entries(*old(q))[k])
                && queue_entries(*final(q)) == queue_entries(*old(q)).remove(ip.0@),
        },
{
    q.pop_min()
}

/// Relies on DoublePriorityQueue::into_ascending_sorted_vec: consumes the
/// queue and returns every queued item, sorted by ascending priority.
#[verifier::external_body]
pub(crate) fn queue_into_ascending(q: DoublePriorityQueue<String, usize>) -> (r: Vec<String>)
    requires
        queue_entries(q).dom().finite(),
    ensures
        r@.len() == queue_entries(q).dom().len(),
        forall|i: int| 0 <= i < r@.len() ==> queue_entries(q).contains_key(#[trigger] r@[i]@),
        forall|k: Seq<char>|
            queue_entries(q).contains_key(k) ==> exists|i: int| 0 <= i < r@.len() && r@[i]@ == k,
        forall|i: int, j: int| 0 <= i < j < r@.len() ==> r@[i]@ != r@[j]@,
        forall|i: int, j: int|
            0 <= i < j < r@.len() ==> queue_entries(q)[r@[i]@] <= queue_entries(q)[r@[j]@],
{
    q.into_ascending_sorted_vec()
}

/// Rebuilds the queue with its priorities compacted to their rank order
/// (0, 1, 2, ... in ascending priority order), preserving which items are
/// queued and their relative order while freeing priority headroom. Returns
/// the rebuilt queue and the number of queued items.
pub(crate) fn queue_compact(q: DoublePriorityQueue<String, usize>) -> (r: (
    DoublePriorityQueue<String, usize>,
    usize,
))
    requires
        queue_entries(q).dom().finite(),
    ensures
        queue_entries(r.0).dom().finite(),
        forall|k: Seq<char>| queue_entries(r.0).contains_key(k) == queue_entries(q).contains_key(k),
        forall|k: Seq<char>| queue_entries(r.0).contains_key(k) ==> queue_entries(r.0)[k] < r.1,
        forall|k1: Seq<char>, k2: Seq<char>|
            queue_entries(q).contains_key(k1) && queue_entries(q).contains_key(k2) && queue_entries(
                q,
            )[k1] < queue_entries(q)[k2] ==> queue_entries(r.0)[k1] < queue_entries(r.0)[k2],
{
    let ghost orig = queue_entries(q);
    let items = queue_into_ascending(q);
    let ghost iv = items@;
    let n = items.len();
    let mut q2 = queue_new();
    let mut i: usize = 0;
    while i < n
        invariant
            n == iv.len(),
            items@ == iv,
            i <= n,
            queue_entries(q2).dom().finite(),
            forall|j: int| 0 <= j < iv.len() ==> orig.contains_key(#[trigger] iv[j]@),
            forall|j1: int, j2: int| 0 <= j1 < j2 < iv.len() ==> iv[j1]@ != iv[j2]@,
            forall|j1: int, j2: int| 0 <= j1 < j2 < iv.len() ==> orig[iv[j1]@] <= orig[iv[j2]@],
            forall|k: Seq<char>|
                queue_entries(q2).contains_key(k) <==> exists|j: int| 0 <= j < i && iv[j]@ == k,
            forall|j: int| 0 <= j < i ==> queue_entries(q2)[#[trigger] iv[j]@] == j,
        decreases n - i,
    {
        let item = items[i].clone();
        proof {
            assert(!queue_entries(q2).contains_key(item@)) by {
                if exists|j: int| 0 <= j < i && iv[j]@ == item@ {
                    let j = choose|j: int| 0 <= j < i && iv[j]@ == item@;
                    assert(iv[j]@ != iv[i as int]@);
                }
            }
        }
        queue_push_increase(&mut q2, item, i);
        i += 1;
    }
    proof {
        assert forall|k1: Seq<char>, k2: Seq<char>|
            orig.contains_key(k1) && orig.contains_key(k2) && orig[k1] < orig[k2] implies
            queue_entries(q2)[k1] < queue_entries(q2)[k2] by {
            let j1 = choose|j: int| 0 <= j < iv.len() && iv[j]@ == k1;
            let j2 = choose|j: int| 0 <= j < iv.len() && iv[j]@ == k2;
            if j2 < j1 {
                assert(orig[iv[j2]@] <= orig[iv[j1]@]);
            }
            assert(j1 < j2);
        }
    }
    (q2, n)
}

} // verus!
