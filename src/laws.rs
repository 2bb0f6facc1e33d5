use vstd::prelude::*;
use vstd::multiset::Multiset;
use crate::item::ItemView;
use crate::queue::{QueueView, Pending, outranks};

verus! {

broadcast use vstd::seq_lib::group_to_multiset_ensures, vstd::multiset::group_multiset_axioms;

/// Capacity: in every reachable state the primary queue holds at most
/// `max_normal` bytes.
pub proof fn lemma_capacity(q: QueueView)
    requires
        q.inv(),
    ensures
        q.normal <= q.max_normal,
{
}

/// Ordering: while nothing waits in the overflow buffer, two successive
/// dequeues release items in non-decreasing virtual finish time (the virtual
/// time is set to the finish time of each dequeued item).
pub proof fn lemma_dequeue_order(
    q1: QueueView,
    q2: QueueView,
    q3: QueueView,
    r1: Option<ItemView>,
    r2: Option<ItemView>,
)
    requires
        q1.inv(),
        q1.overflow.len() == 0,
        q1.dequeued(q2, r1),
        q2.dequeued(q3, r2),
        r1 is Some,
        r2 is Some,
    ensures
        q2.virtual_time <= q3.virtual_time,
{
    let i1 = choose|i: int| q1.dequeued_at(q2, r1, i);
    let rest = q1.primary.remove(i1);
    if q2.overflow.len() > 0 {
        assert(q2.overflow.contains(q2.overflow[0]));
    }
    let i2 = choose|i: int| q2.dequeued_at(q3, r2, i);
    let e2 = q2.primary[i2];
    assert(q2.overflow.len() == 0);
    assert(q2.overflow.to_multiset() =~= Multiset::empty());
    assert(q2.primary.to_multiset().count(e2) > 0);
    assert(q1.overflow.to_multiset() =~= Multiset::empty());
    assert(q2.contents().count(e2) > 0);
    assert(rest.to_multiset().count(e2) > 0);
    let j = choose|j: int| 0 <= j < rest.len() && rest[j] == e2;
    q1.primary.remove_ensures(i1);
    let jj = if j < i1 {
        j
    } else {
        j + 1
    };
    assert(q1.primary[jj] == e2);
}

/// Flow teardown: when a dequeue takes the last buffered byte of a flow, the
/// flow leaves the ledger and the weight sum drops by exactly its weight.
pub proof fn lemma_flow_teardown(pre: QueueView, post: QueueView, r: Option<ItemView>)
    requires
        pre.inv(),
        pre.dequeued(post, r),
        r matches Some(it) && pre.flow_total(it.flow_key) == it.size(),
    ensures
        !post.flows.contains_key(r->0.flow_key),
        post.weight_sum == pre.weight_sum - pre.flows[r->0.flow_key].weight,
{
    let i = choose|i: int| pre.dequeued_at(post, r, i);
}

/// Promotion order: an entry that a dequeue moved out of the overflow buffer
/// outranks every entry it left there: greater weight, or equal weight and
/// earlier arrival.
pub proof fn lemma_promotion_order(
    pre: QueueView,
    post: QueueView,
    r: Option<ItemView>,
    p: Pending,
    q: Pending,
)
    requires
        pre.inv(),
        pre.dequeued(post, r),
        pre.overflow.contains(p),
        !post.overflow.contains(p),
        post.overflow.contains(q),
    ensures
        outranks(p, q),
{
    if pre.primary.len() > 0 {
        let i = choose|i: int| pre.dequeued_at(post, r, i);
    }
}

/// Conservation: once the scheduler is drained, the entries handed out are
/// exactly the entries admitted, each once.
pub proof fn lemma_conservation(q: QueueView)
    requires
        q.inv(),
        q.primary.len() == 0,
        q.overflow.len() == 0,
    ensures
        q.accepted == q.delivered,
{
    assert(q.primary.to_multiset() =~= Multiset::empty());
    assert(q.overflow.to_multiset() =~= Multiset::empty());
    assert(q.accepted =~= q.delivered);
}

} // verus!
