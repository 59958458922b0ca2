//! Selection of the largest groups with a bounded double-ended priority
//! queue, as the ranking queries of both tables use it.
use priority_queue::DoublePriorityQueue;
use std::hash::Hash;
use vstd::prelude::*;

verus! {

#[verifier::external_type_specification]
#[verifier::external_body]
#[verifier::reject_recursive_types(I)]
#[verifier::reject_recursive_types(P)]
#[verifier::reject_recursive_types(H)]
pub struct ExDoublePriorityQueue<I: Hash + Eq, P: Ord, H>(DoublePriorityQueue<I, P, H>);

/// A queue of group indices, each with its size as priority.
pub type GroupQueue = DoublePriorityQueue<usize, usize>;

/// What a queue of group indices holds: each item with its priority.
pub uninterp spec fn queue_items(q: GroupQueue) -> Map<usize, usize>;

/// Relies on `DoublePriorityQueue::with_capacity`: a new queue holds nothing.
#[verifier::external_body]
fn queue_with_capacity(capacity: usize) -> (r: GroupQueue)
    ensures
        queue_items(r).dom() == Set::<usize>::empty(),
{
    DoublePriorityQueue::with_capacity(capacity)
}

/// Relies on `DoublePriorityQueue::len`: the number of items held.
#[verifier::external_body]
fn queue_len(q: &GroupQueue) -> (r: usize)
    ensures
        r == queue_items(*q).len(),
{
    q.len()
}

/// Relies on `DoublePriorityQueue::peek_min`: the lowest priority held, if any.
#[verifier::external_body]
fn queue_min_priority(q: &GroupQueue) -> (r: Option<usize>)
    ensures
        r is None <==> queue_items(*q).dom() == Set::<usize>::empty(),
        r matches Some(p) ==> (exists|i: usize| #[trigger] queue_items(*q).contains_key(i) && queue_items(*q)[i] == p)
            && (forall|i: usize| #[trigger] queue_items(*q).contains_key(i) ==> p <= queue_items(*q)[i]),
{
    q.peek_min().map(|(_, p)| *p)
}

/// Relies on `DoublePriorityQueue::push`: the item is held afterwards with
/// the given priority, and nothing else changes.
#[verifier::external_body]
fn queue_push(q: &mut GroupQueue, item: usize, priority: usize)
    ensures
        queue_items(*final(q)) == queue_items(*old(q)).insert(item, priority),
{
    q.push(item, priority);
}

/// Relies on `DoublePriorityQueue::pop_min`: an item of the lowest priority
/// leaves the queue and is returned with its priority; an empty queue gives
/// `None`.
#[verifier::external_body]
fn queue_pop_min(q: &mut GroupQueue) -> (r: Option<(usize, usize)>)
    ensures
        r is None <==> queue_items(*old(q)).dom() == Set::<usize>::empty(),
        r is None ==> queue_items(*final(q)) == queue_items(*old(q)),
        r matches Some(x) ==> queue_items(*old(q)).contains_key(x.0) && queue_items(*old(q))[x.0] == x.1
            && (forall|i: usize| #[trigger] queue_items(*old(q)).contains_key(i) ==> x.1 <= queue_items(*old(q))[i])
            && queue_items(*final(q)) == queue_items(*old(q)).remove(x.0),
{
    q.pop_min()
}

/// Relies on `DoublePriorityQueue::into_descending_sorted_vec`: every item
/// once, from the highest priority to the lowest.
#[verifier::external_body]
fn queue_into_descending(q: GroupQueue) -> (r: Vec<usize>)
    ensures
        r@.no_duplicates(),
        r@.to_set() == queue_items(q).dom(),
        forall|i: int, j: int| 0 <= i < j < r@.len() ==> queue_items(q)[r@[i]] >= queue_items(q)[r@[j]],
{
    q.into_descending_sorted_vec()
}

/// `r` picks the `k` largest of `sizes` (all of them where there are fewer),
/// each index once, largest first; no index left out is larger than one taken.
pub open spec fn is_top_k(r: Seq<usize>, sizes: Seq<usize>, k: nat) -> bool {
    &&& r.len() == if k < sizes.len() { k } else { sizes.len() }
    &&& r.no_duplicates()
    &&& forall|i: int| 0 <= i < r.len() ==> #[trigger] r[i] < sizes.len()
    &&& forall|i: int, j: int| 0 <= i < j < r.len() ==> sizes[#[trigger] r[i] as int] >= sizes[#[trigger] r[j] as int]
    &&& forall|g: int, i: int|
        0 <= g < sizes.len() && 0 <= i < r.len() && !r.contains(g as usize) ==> #[trigger] sizes[g] <= sizes[#[trigger] r[i] as int]
}

/// The indices of the `k` largest sizes, largest first. The sizes are read in
/// order into a queue of at most `k` items: one is pushed when the queue has
/// room or it is at least the queue's smallest, which then leaves.
pub fn top_k_indices(sizes: &Vec<usize>, k: usize) -> (r: Vec<usize>)
    ensures
        is_top_k(r@, sizes@, k as nat),
{
    let mut queue = queue_with_capacity(k);
    assert(queue_items(queue).dom().finite()) by {
        assert(queue_items(queue).dom() == Set::<usize>::empty());
    }
    let mut g: usize = 0;
    while g < sizes.len()
        invariant
            g <= sizes@.len(),
            queue_items(queue).dom().finite(),
            queue_items(queue).len() == if (k as int) < g { k as int } else { g as int },
            forall|i: usize| #[trigger] queue_items(queue).contains_key(i) ==> i < g && queue_items(queue)[i] == sizes@[i as int],
            forall|j: usize, i: usize|
                #![trigger sizes@[j as int], queue_items(queue).contains_key(i)]
                j < g && !queue_items(queue).contains_key(j) && queue_items(queue).contains_key(i)
                    ==> sizes@[j as int] <= sizes@[i as int],
            queue_items(queue).len() < k ==> forall|j: usize| j < g ==> #[trigger] queue_items(queue).contains_key(j),
        decreases sizes@.len() - g,
    {
        let len = sizes[g];
        let min = match queue_min_priority(&queue) {
            Some(p) => p,
            None => 0,
        };
        let count = queue_len(&queue);
        let ghost before = queue_items(queue);
        if len >= min || count < k {
            proof {
                assert(!before.contains_key(g));
            }
            queue_push(&mut queue, g, len);
            proof {
                assert(queue_items(queue).len() == before.len() + 1) by {
                    assert(queue_items(queue).dom() == before.dom().insert(g));
                }
            }
            let ghost pushed = queue_items(queue);
            if queue_len(&queue) > k {
                let popped = queue_pop_min(&mut queue);
                proof {
                    let x = popped->Some_0;
                    assert(queue_items(queue).dom() == pushed.dom().remove(x.0));
                    assert(queue_items(queue).len() == pushed.len() - 1);
                    assert forall|j: usize, i: usize|
                        #![trigger sizes@[j as int], queue_items(queue).contains_key(i)]
                        j < g + 1 && !queue_items(queue).contains_key(j) && queue_items(queue).contains_key(i)
                            implies sizes@[j as int] <= sizes@[i as int] by {
                        if j == x.0 {
                            assert(pushed.contains_key(i));
                        } else if j == g {
                        } else {
                            assert(!before.contains_key(j));
                            if i == g {
                                assert(count >= k);
                                let w = choose|w: usize| #[trigger] before.contains_key(w) && before[w] == min;
                            }
                        }
                    }
                }
            } else {
                proof {
                    assert forall|j: usize| j < g + 1 implies #[trigger] queue_items(queue).contains_key(j) by {
                        if j < g {
                            assert(before.contains_key(j));
                        }
                    }
                }
            }
        } else {
            proof {
                let w = choose|w: usize| #[trigger] before.contains_key(w) && before[w] == min;
            }
        }
        g = g + 1;
    }
    let ghost items = queue_items(queue);
    let r = queue_into_descending(queue);
    proof {
        r@.unique_seq_to_set();
        assert(r@.len() == items.len());
        assert forall|i: int| 0 <= i < r@.len() implies #[trigger] r@[i] < sizes@.len() && items[r@[i]] == sizes@[r@[i] as int] by {
            assert(r@.to_set().contains(r@[i]));
        }
        assert forall|i: int, j: int| 0 <= i < j < r@.len() implies sizes@[#[trigger] r@[i] as int] >= sizes@[#[trigger] r@[j] as int] by {
            assert(items[r@[i]] >= items[r@[j]]);
        }
        assert forall|g: int, i: int|
            0 <= g < sizes@.len() && 0 <= i < r@.len() && !r@.contains(g as usize) implies #[trigger] sizes@[g] <= sizes@[#[trigger] r@[i] as int] by {
            assert(r@.to_set().contains(r@[i]));
            if items.contains_key(g as usize) {
                assert(r@.to_set().contains(g as usize));
            }
        }
    }
    r
}

} // verus!
