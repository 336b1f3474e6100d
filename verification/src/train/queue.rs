//! Pair counts, with the most frequent pair at hand.
use vstd::prelude::*;

verus! {

/// Two symbols next to each other.
pub type Pair = (u32, u32);

/// `priority_queue::PriorityQueue`: items with priorities, each item once.
#[verifier::external_type_specification]
#[verifier::external_body]
#[verifier::reject_recursive_types(I)]
#[verifier::reject_recursive_types(P)]
#[verifier::reject_recursive_types(H)]
pub struct ExPriorityQueue<I, P, H>(priority_queue::PriorityQueue<I, P, H>);

/// A queue of pairs by count.
pub type PairQueue = priority_queue::PriorityQueue<(u32, u32), i128>;

/// The items of a queue with their priorities.
pub uninterp spec fn queue_counts(q: priority_queue::PriorityQueue<(u32, u32), i128>) -> Map<(u32, u32), i128>;

/// `priority_queue::PriorityQueue::new`: an empty queue.
#[verifier::external_body]
pub(crate) fn new_queue() -> (q: PairQueue)
    ensures
        queue_counts(q).dom() == Set::<Pair>::empty(),
{
    priority_queue::PriorityQueue::new()
}

/// `priority_queue::PriorityQueue::push`: `item` is in the queue with
/// priority `count`, whether it was there before or not.
#[verifier::external_body]
pub(crate) fn queue_push(q: &mut PairQueue, item: (u32, u32), count: i128)
    ensures
        queue_counts(*final(q)) == queue_counts(*old(q)).insert(item, count),
{
    q.push(item, count);
}

/// `priority_queue::PriorityQueue::peek`: an item of greatest priority, or
/// `None` when the queue is empty. Which of several is left open.
#[verifier::external_body]
pub(crate) fn queue_peek(q: &PairQueue) -> (r: Option<((u32, u32), i128)>)
    ensures
        match r {
            Some((item, count)) => {
                &&& queue_counts(*q).contains_key(item)
                &&& queue_counts(*q)[item] == count
                &&& forall|p: (u32, u32)| #[trigger]
                    queue_counts(*q).contains_key(p) ==> queue_counts(*q)[p] <= count
            },
            None => queue_counts(*q).dom() == Set::<Pair>::empty(),
        },
{
    q.peek().map(|(item, count)| (*item, *count))
}

/// `priority_queue::PriorityQueue::pop`: takes out an item of greatest
/// priority, or gives `None` when the queue is empty. Which of several is left
/// open.
#[verifier::external_body]
pub(crate) fn queue_pop(q: &mut PairQueue) -> (r: Option<((u32, u32), i128)>)
    ensures
        match r {
            Some((item, count)) => {
                &&& queue_counts(*old(q)).contains_key(item)
                &&& queue_counts(*old(q))[item] == count
                &&& forall|p: (u32, u32)| #[trigger]
                    queue_counts(*old(q)).contains_key(p) ==> queue_counts(*old(q))[p] <= count
                &&& queue_counts(*final(q)) == queue_counts(*old(q)).remove(item)
            },
            None => {
                &&& queue_counts(*old(q)).dom() == Set::<Pair>::empty()
                &&& queue_counts(*final(q)) == queue_counts(*old(q))
            },
        },
{
    q.pop()
}

/// Adds a change to a count.
fn change_count(count: &mut i128, change: i128)
    requires
        i128::MIN <= *old(count) + change <= i128::MAX,
    ensures
        *final(count) == *old(count) + change,
{
    *count = *count + change;
}

/// `priority_queue::PriorityQueue::change_priority_by`: adds `change` to the
/// priority of `item` where it is in the queue, and says whether it is.
#[verifier::external_body]
pub(crate) fn queue_change(q: &mut PairQueue, item: (u32, u32), change: i128) -> (found: bool)
    requires
        queue_counts(*old(q)).contains_key(item) ==> i128::MIN <= queue_counts(*old(q))[item] + change
            <= i128::MAX,
    ensures
        found == queue_counts(*old(q)).contains_key(item),
        queue_counts(*final(q)) == if found {
            queue_counts(*old(q)).insert(item, (queue_counts(*old(q))[item] + change) as i128)
        } else {
            queue_counts(*old(q))
        },
{
    q.change_priority_by(&item, |count| change_count(count, change))
}

/// The count of a pair; 0 when it is not in the queue.
pub open spec fn count_in(m: Map<Pair, i128>, p: Pair) -> int {
    if m.contains_key(p) {
        m[p] as int
    } else {
        0
    }
}

/// 1 for equal pairs, else 0.
pub open spec fn same(p: Pair, q: Pair) -> int {
    if p == q {
        1
    } else {
        0
    }
}

/// `b` is `a` with `change` added to the count of `p`.
pub open spec fn is_bumped(a: Map<Pair, i128>, b: Map<Pair, i128>, p: Pair, change: int) -> bool {
    forall|q: Pair|
        {
            &&& #[trigger] b.contains_key(q) == (a.contains_key(q) || q == p)
            &&& count_in(b, q) == count_in(a, q) + change * same(q, p)
        }
}

/// Adds `change` to the count of `p`.
pub fn bump(q: &mut PairQueue, p: Pair, change: i128)
    requires
        i128::MIN <= count_in(queue_counts(*old(q)), p) + change <= i128::MAX,
    ensures
        is_bumped(queue_counts(*old(q)), queue_counts(*final(q)), p, change as int),
        queue_counts(*old(q)).dom().finite() ==> queue_counts(*final(q)).dom().finite(),
{
    let ghost a = queue_counts(*q);
    if !queue_change(q, p, change) {
        queue_push(q, p, change);
    }
    proof {
        let b = queue_counts(*q);
        assert forall|x: Pair|
            {
                &&& #[trigger] b.contains_key(x) == (a.contains_key(x) || x == p)
                &&& count_in(b, x) == count_in(a, x) + change * same(x, p)
            } by {
            assert(change * 1 == change && change * 0 == 0) by (nonlinear_arith);
        }
    }
}

} // verus!
