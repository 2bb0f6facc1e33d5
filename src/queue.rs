use std::collections::HashMap;
use vstd::prelude::*;
use vstd::multiset::Multiset;
use vstd::std_specs::hash::group_hash_axioms;
use crate::item::{Item, ItemView};

verus! {

broadcast use vstd::seq_lib::group_to_multiset_ensures, vstd::multiset::group_multiset_axioms;

/// Scale of the fixed-point inverse weight: a flow of weight `w` pays
/// `WEIGHT_SCALE / w` units of virtual time per byte.
pub const WEIGHT_SCALE: u64 = 65536;

/// How an item's virtual finish time is priced.
#[derive(Debug, Clone, Copy, PartialEq, Eq)]
pub enum WeightMode {
    /// The flow's weight, fixed when the flow is created, prices every item of
    /// the flow through the inverse weight `WEIGHT_SCALE / weight`.
    PerFlow,
    /// Each item is priced with its own weight: `weight * size`.
    PerItem,
}

/// Byte counts of the primary queue and of the overflow buffer.
#[derive(Debug, Clone, Copy)]
pub struct QueueSize {
    normal: usize,
    overflow: usize,
}

impl QueueSize {
    pub closed spec fn normal_bytes(self) -> nat {
        self.normal as nat
    }

    pub closed spec fn overflow_bytes(self) -> nat {
        self.overflow as nat
    }

    pub open spec fn total_bytes(self) -> nat {
        self.normal_bytes() + self.overflow_bytes()
    }

    pub fn new() -> (r: Self)
        ensures
            r.normal_bytes() == 0,
            r.overflow_bytes() == 0,
    {
        Self { normal: 0, overflow: 0 }
    }

    pub fn total(&self) -> (r: usize)
        requires
            self.total_bytes() <= usize::MAX,
        ensures
            r == self.total_bytes(),
    {
        self.normal + self.overflow
    }

    pub fn normal(&self) -> (r: usize)
        ensures
            r == self.normal_bytes(),
    {
        self.normal
    }

    pub fn overflow(&self) -> (r: usize)
        ensures
            r == self.overflow_bytes(),
    {
        self.overflow
    }
}

/// What the scheduler keeps about one active flow.
#[derive(Debug, Clone, Copy)]
pub struct FlowState {
    /// Bytes of this flow held in the primary queue and in the overflow buffer.
    pub queue_size: QueueSize,
    /// Virtual finish time of the flow's latest admitted item.
    pub last_virtual_finish_time: u128,
    /// The flow's weight, fixed when the flow is created.
    pub weight: u64,
    /// `WEIGHT_SCALE / weight`, computed once per flow.
    pub inverse_weight: u64,
}

impl FlowState {
    /// Weight, inverse weight and last finish time agree.
    pub open spec fn same_params(self, other: FlowState) -> bool {
        &&& self.weight == other.weight
        &&& self.inverse_weight == other.inverse_weight
        &&& self.last_virtual_finish_time == other.last_virtual_finish_time
    }
}

/// An admitted item, with its arrival number and virtual finish time.
pub struct Pending {
    pub item: ItemView,
    pub seqno: u64,
    pub finish: u128,
}

/// The observable state of a scheduler.
pub struct QueueView {
    pub primary: Seq<Pending>,
    pub overflow: Seq<Pending>,
    pub flows: Map<u64, FlowState>,
    /// The keys of the active flows, each once.
    pub active: Seq<u64>,
    pub normal: nat,
    pub overflowed: nat,
    pub max_normal: nat,
    pub max_flow: Option<nat>,
    pub mode: WeightMode,
    pub virtual_time: u128,
    pub seqno: u64,
    pub weight_sum: nat,
    /// Every entry ever admitted.
    pub accepted: Multiset<Pending>,
    /// Every entry ever handed out by `dequeue`.
    pub delivered: Multiset<Pending>,
}

/// Total payload bytes of a sequence of entries.
pub open spec fn bytes(s: Seq<Pending>) -> nat
    decreases s.len(),
{
    if s.len() == 0 {
        0
    } else {
        bytes(s.drop_last()) + s.last().item.size()
    }
}

/// Payload bytes of the entries of flow `k`.
pub open spec fn flow_bytes(s: Seq<Pending>, k: u64) -> nat
    decreases s.len(),
{
    if s.len() == 0 {
        0
    } else {
        flow_bytes(s.drop_last(), k) + if s.last().item.flow_key == k {
            s.last().item.size()
        } else {
            0
        }
    }
}

/// Sum of the weights of the listed flows.
pub open spec fn weight_total(keys: Seq<u64>, flows: Map<u64, FlowState>) -> nat
    decreases keys.len(),
{
    if keys.len() == 0 {
        0
    } else {
        weight_total(keys.drop_last(), flows) + flows[keys.last()].weight as nat
    }
}

/// No two entries share an arrival number.
pub open spec fn distinct(s: Seq<Pending>) -> bool {
    forall|i: int, j: int|
        0 <= i < s.len() && 0 <= j < s.len() && i != j ==> s[i].seqno != s[j].seqno
}

/// No entry of `a` shares an arrival number with an entry of `b`.
pub open spec fn disjoint(a: Seq<Pending>, b: Seq<Pending>) -> bool {
    forall|i: int, j: int| 0 <= i < a.len() && 0 <= j < b.len() ==> a[i].seqno != b[j].seqno
}

/// `p` leaves the overflow buffer no later than `q`: greater weight, or equal
/// weight and earlier arrival.
pub open spec fn ranks_at_least(p: Pending, q: Pending) -> bool {
    p.item.weight > q.item.weight || (p.item.weight == q.item.weight && p.seqno <= q.seqno)
}

/// `p` leaves the overflow buffer strictly before `q`.
pub open spec fn outranks(p: Pending, q: Pending) -> bool {
    p.item.weight > q.item.weight || (p.item.weight == q.item.weight && p.seqno < q.seqno)
}

/// Entry `i` is the next overflow candidate.
pub open spec fn is_best(s: Seq<Pending>, i: int) -> bool {
    0 <= i < s.len() && forall|j: int| 0 <= j < s.len() ==> ranks_at_least(s[i], s[j])
}

/// Entry `i` is the next item due: smallest finish time, then earliest arrival.
pub open spec fn next_due(s: Seq<Pending>, i: int) -> bool {
    0 <= i < s.len() && forall|j: int|
        0 <= j < s.len() ==> s[i].finish < s[j].finish || (s[i].finish == s[j].finish
            && s[i].seqno <= s[j].seqno)
}

impl QueueView {
    /// Buffered bytes of flow `k` (zero for an unknown flow).
    pub open spec fn flow_total(self, k: u64) -> nat {
        if self.flows.contains_key(k) {
            self.flows[k].queue_size.total_bytes()
        } else {
            0
        }
    }

    /// Every entry currently held, in either queue.
    pub open spec fn contents(self) -> Multiset<Pending> {
        self.primary.to_multiset().add(self.overflow.to_multiset())
    }

    pub open spec fn entry_ok(self, e: Pending) -> bool {
        &&& e.item.wf()
        &&& self.flows.contains_key(e.item.flow_key)
        &&& e.seqno < self.seqno
    }

    pub open spec fn flow_ok(self, k: u64) -> bool {
        let f = self.flows[k];
        &&& f.weight >= 1
        &&& f.inverse_weight == WEIGHT_SCALE / f.weight
        &&& f.queue_size.normal_bytes() == flow_bytes(self.primary, k)
        &&& f.queue_size.overflow_bytes() == flow_bytes(self.overflow, k)
        &&& f.queue_size.total_bytes() > 0
    }

    /// The scheduler's invariant.
    pub open spec fn inv(self) -> bool {
        &&& self.normal == bytes(self.primary)
        &&& self.overflowed == bytes(self.overflow)
        &&& self.normal <= self.max_normal
        &&& self.normal + self.overflowed <= usize::MAX
        &&& self.max_normal <= usize::MAX
        &&& (self.max_flow matches Some(m) ==> m <= self.max_normal)
        &&& forall|i: int| 0 <= i < self.primary.len() ==> self.entry_ok(#[trigger] self.primary[i])
        &&& forall|i: int|
            0 <= i < self.overflow.len() ==> self.entry_ok(#[trigger] self.overflow[i])
        &&& distinct(self.primary)
        &&& distinct(self.overflow)
        &&& disjoint(self.primary, self.overflow)
        &&& forall|k: u64| #[trigger] self.flows.contains_key(k) ==> self.flow_ok(k)
        &&& self.active.no_duplicates()
        &&& forall|k: u64| self.flows.contains_key(k) <==> #[trigger] self.active.contains(k)
        &&& self.active.len() <= self.seqno
        &&& self.weight_sum == weight_total(self.active, self.flows)
        &&& self.accepted == self.delivered.add(self.contents())
    }
}

proof fn lemma_bytes_push(s: Seq<Pending>, e: Pending)
    ensures
        bytes(s.push(e)) == bytes(s) + e.item.size(),
        forall|k: u64|
            #[trigger] flow_bytes(s.push(e), k) == flow_bytes(s, k) + if e.item.flow_key == k {
                e.item.size()
            } else {
                0
            },
{
    assert(s.push(e).drop_last() =~= s);
}

proof fn lemma_bytes_remove(s: Seq<Pending>, i: int)
    requires
        0 <= i < s.len(),
    ensures
        bytes(s) == bytes(s.remove(i)) + s[i].item.size(),
        forall|k: u64|
            #[trigger] flow_bytes(s, k) == flow_bytes(s.remove(i), k) + if s[i].item.flow_key
                == k {
                s[i].item.size()
            } else {
                0
            },
    decreases s.len(),
{
    if i == s.len() - 1 {
        assert(s.remove(i) =~= s.drop_last());
    } else {
        let t = s.drop_last();
        lemma_bytes_remove(t, i);
        assert(s.remove(i).drop_last() =~= t.remove(i));
        assert(s.remove(i).last() == s.last());
        assert forall|k: u64|
            #[trigger] flow_bytes(s, k) == flow_bytes(s.remove(i), k) + if s[i].item.flow_key
                == k {
                s[i].item.size()
            } else {
                0
            } by {
            assert(flow_bytes(t, k) == flow_bytes(t.remove(i), k) + if t[i].item.flow_key == k {
                t[i].item.size()
            } else {
                0
            });
        }
    }
}

proof fn lemma_flow_bytes_le(s: Seq<Pending>, k: u64)
    ensures
        flow_bytes(s, k) <= bytes(s),
    decreases s.len(),
{
    if s.len() > 0 {
        lemma_flow_bytes_le(s.drop_last(), k);
    }
}

proof fn lemma_flow_bytes_absent(s: Seq<Pending>, k: u64)
    requires
        forall|i: int| 0 <= i < s.len() ==> s[i].item.flow_key != k,
    ensures
        flow_bytes(s, k) == 0,
    decreases s.len(),
{
    if s.len() > 0 {
        lemma_flow_bytes_absent(s.drop_last(), k);
    }
}

proof fn lemma_weight_total_frame(keys: Seq<u64>, f1: Map<u64, FlowState>, f2: Map<u64, FlowState>)
    requires
        forall|i: int| 0 <= i < keys.len() ==> f1[keys[i]].weight == f2[keys[i]].weight,
    ensures
        weight_total(keys, f1) == weight_total(keys, f2),
    decreases keys.len(),
{
    if keys.len() > 0 {
        lemma_weight_total_frame(keys.drop_last(), f1, f2);
    }
}

proof fn lemma_weight_total_push(keys: Seq<u64>, flows: Map<u64, FlowState>, k: u64)
    ensures
        weight_total(keys.push(k), flows) == weight_total(keys, flows) + flows[k].weight,
{
    assert(keys.push(k).drop_last() =~= keys);
}

proof fn lemma_weight_total_remove(keys: Seq<u64>, flows: Map<u64, FlowState>, i: int)
    requires
        0 <= i < keys.len(),
    ensures
        weight_total(keys, flows) == weight_total(keys.remove(i), flows) + flows[keys[i]].weight,
    decreases keys.len(),
{
    if i == keys.len() - 1 {
        assert(keys.remove(i) =~= keys.drop_last());
    } else {
        let t = keys.drop_last();
        lemma_weight_total_remove(t, flows, i);
        assert(keys.remove(i).drop_last() =~= t.remove(i));
        assert(keys.remove(i).last() == keys.last());
    }
}

proof fn lemma_weight_total_bound(keys: Seq<u64>, flows: Map<u64, FlowState>)
    ensures
        weight_total(keys, flows) <= keys.len() * (u64::MAX as nat),
    decreases keys.len(),
{
    if keys.len() > 0 {
        lemma_weight_total_bound(keys.drop_last(), flows);
    }
}

impl QueueView {
    /// The per-flow cap, if any, leaves room for `it`.
    pub open spec fn cap_allows(self, it: ItemView) -> bool {
        match self.max_flow {
            Some(m) => self.flow_total(it.flow_key) + it.size() <= m,
            None => true,
        }
    }

    /// The inverse weight `it` is priced with.
    pub open spec fn inverse_for(self, it: ItemView) -> nat {
        if self.flows.contains_key(it.flow_key) {
            self.flows[it.flow_key].inverse_weight as nat
        } else {
            (WEIGHT_SCALE / it.weight) as nat
        }
    }

    /// The virtual time each byte of `it` costs.
    pub open spec fn price_for(self, it: ItemView) -> nat {
        match self.mode {
            WeightMode::PerFlow => self.inverse_for(it),
            WeightMode::PerItem => it.weight as nat,
        }
    }

    /// The virtual time the pricing of `it` starts from.
    pub open spec fn start_for(self, it: ItemView) -> nat {
        if self.flows.contains_key(it.flow_key) {
            self.flows[it.flow_key].last_virtual_finish_time as nat
        } else {
            self.virtual_time as nat
        }
    }

    /// The virtual finish time `it` is given on admission.
    pub open spec fn finish_for(self, it: ItemView) -> nat {
        self.start_for(it) + it.size() * self.price_for(it)
    }

    /// `it` is admitted: the cap allows it, and neither the arrival counter
    /// nor the virtual clock is exhausted.
    pub open spec fn admits(self, it: ItemView) -> bool {
        &&& self.cap_allows(it)
        &&& self.seqno < u64::MAX
        &&& self.finish_for(it) <= u128::MAX
    }

    /// `post` is `self` after admitting `it`.
    pub open spec fn enqueued(self, post: QueueView, it: ItemView) -> bool {
        let k = it.flow_key;
        let fresh = !self.flows.contains_key(k);
        let e = Pending { item: it, seqno: self.seqno, finish: self.finish_for(it) as u128 };
        let fits = self.normal + it.size() <= self.max_normal;
        &&& post.primary == if fits {
            self.primary.push(e)
        } else {
            self.primary
        }
        &&& post.overflow == if fits {
            self.overflow
        } else {
            self.overflow.push(e)
        }
        &&& post.normal == if fits {
            self.normal + it.size()
        } else {
            self.normal
        }
        &&& post.overflowed == if fits {
            self.overflowed
        } else {
            self.overflowed + it.size()
        }
        &&& post.flows.dom() == self.flows.dom().insert(k)
        &&& forall|k2: u64|
            k2 != k && #[trigger] self.flows.contains_key(k2) ==> post.flows[k2]
                == self.flows[k2]
        &&& post.flows[k].weight == if fresh {
            it.weight
        } else {
            self.flows[k].weight
        }
        &&& post.flows[k].inverse_weight == self.inverse_for(it)
        &&& post.flows[k].last_virtual_finish_time == e.finish
        &&& post.weight_sum == self.weight_sum + if fresh {
            it.weight as nat
        } else {
            0
        }
        &&& post.seqno == self.seqno + 1
        &&& post.virtual_time == self.virtual_time
        &&& post.max_normal == self.max_normal
        &&& post.max_flow == self.max_flow
        &&& post.mode == self.mode
        &&& post.accepted == self.accepted.insert(e)
        &&& post.delivered == self.delivered
    }
}

impl QueueView {
    /// `self` is what a promotion sweep leaves when it starts from the primary
    /// queue `prim` and the overflow buffer `over`: no entry is lost or added,
    /// the promoted entries outrank every entry left behind, and the next
    /// candidate does not fit.
    pub open spec fn promoted_from(self, prim: Seq<Pending>, over: Seq<Pending>) -> bool {
        &&& self.contents() == prim.to_multiset().add(over.to_multiset())
        &&& forall|q: Pending| #[trigger] self.overflow.contains(q) ==> over.contains(q)
        &&& forall|p: Pending, q: Pending|
            over.contains(p) && !self.overflow.contains(p) && self.overflow.contains(q)
                ==> #[trigger] outranks(p, q)
        &&& forall|i: int|
            #[trigger] is_best(self.overflow, i) ==> self.normal + self.overflow[i].item.size()
                > self.max_normal
    }

    /// `post` is `self` after dequeuing the entry at index `i` of the primary queue.
    pub open spec fn dequeued_at(self, post: QueueView, r: Option<ItemView>, i: int) -> bool {
        let e = self.primary[i];
        let k = e.item.flow_key;
        let gone = self.flow_total(k) == e.item.size();
        &&& next_due(self.primary, i)
        &&& r == Some(e.item)
        &&& post.virtual_time == e.finish
        &&& post.normal + post.overflowed == self.normal + self.overflowed - e.item.size()
        &&& post.seqno == self.seqno
        &&& post.max_normal == self.max_normal
        &&& post.max_flow == self.max_flow
        &&& post.mode == self.mode
        &&& post.accepted == self.accepted
        &&& post.delivered == self.delivered.insert(e)
        &&& forall|k2: u64|
            #[trigger] post.flows.contains_key(k2) <==> self.flows.contains_key(k2) && !(gone
                && k2 == k)
        &&& forall|k2: u64| #[trigger]
            post.flows.contains_key(k2) ==> post.flows[k2].same_params(self.flows[k2])
        &&& post.weight_sum == if gone {
            self.weight_sum - self.flows[k].weight
        } else {
            self.weight_sum as int
        }
        &&& post.promoted_from(self.primary.remove(i), self.overflow)
    }

    /// `post` and `r` are what `dequeue` gives from `self`.
    pub open spec fn dequeued(self, post: QueueView, r: Option<ItemView>) -> bool {
        if self.primary.len() == 0 {
            r is None && post == self
        } else {
            exists|i: int| self.dequeued_at(post, r, i)
        }
    }
}

/// The views of an optional item.
pub open spec fn item_view(r: Option<Item>) -> Option<ItemView> {
    match r {
        Some(x) => Some(x@),
        None => None,
    }
}

proof fn lemma_flow_bytes_pos(s: Seq<Pending>, k: u64, i: int)
    requires
        0 <= i < s.len(),
        s[i].item.flow_key == k,
    ensures
        flow_bytes(s, k) >= s[i].item.size(),
    decreases s.len(),
{
    if i < s.len() - 1 {
        lemma_flow_bytes_pos(s.drop_last(), k, i);
    }
}

fn next_due_index(v: &Vec<Entry>) -> (r: usize)
    requires
        v.len() > 0,
    ensures
        next_due(pendings(v@), r as int),
{
    let ghost s = pendings(v@);
    let mut best: usize = 0;
    let mut j: usize = 1;
    while j < v.len()
        invariant
            0 <= best < j <= v.len(),
            s == pendings(v@),
            forall|t: int|
                0 <= t < j ==> s[best as int].finish < s[t].finish || (s[best as int].finish
                    == s[t].finish && s[best as int].seqno <= s[t].seqno),
        decreases v.len() - j,
    {
        if v[j].finish < v[best].finish || (v[j].finish == v[best].finish && v[j].seqno
            < v[best].seqno) {
            best = j;
        }
        j = j + 1;
    }
    best
}

fn best_index(v: &Vec<Entry>) -> (r: usize)
    requires
        v.len() > 0,
    ensures
        is_best(pendings(v@), r as int),
{
    let ghost s = pendings(v@);
    let mut best: usize = 0;
    let mut j: usize = 1;
    while j < v.len()
        invariant
            0 <= best < j <= v.len(),
            s == pendings(v@),
            forall|t: int| 0 <= t < j ==> ranks_at_least(s[best as int], s[t]),
        decreases v.len() - j,
    {
        let wj = v[j].item.weight();
        let wb = v[best].item.weight();
        if wj > wb || (wj == wb && v[j].seqno < v[best].seqno) {
            best = j;
        }
        j = j + 1;
    }
    best
}

struct Entry {
    item: Item,
    seqno: u64,
    finish: u128,
}

impl View for Entry {
    type V = Pending;

    closed spec fn view(&self) -> Pending {
        Pending { item: self.item@, seqno: self.seqno, finish: self.finish }
    }
}

spec fn pendings(v: Seq<Entry>) -> Seq<Pending> {
    v.map_values(|e: Entry| e@)
}

/// A weighted fair queuing scheduler: a primary queue bounded in bytes, served
/// in order of virtual finish time, and an overflow buffer drained by weight.
pub struct WeightedFairQueue {
    items: Vec<Entry>,
    overflow: Vec<Entry>,
    flows: HashMap<u64, FlowState>,
    queue_size: QueueSize,
    max_normal_queue_size: usize,
    max_flow_size: Option<usize>,
    mode: WeightMode,
    virtual_time: u128,
    seqno: u64,
    weight_sum: u128,
    active: Ghost<Seq<u64>>,
    accepted: Ghost<Multiset<Pending>>,
    delivered: Ghost<Multiset<Pending>>,
}

impl View for WeightedFairQueue {
    type V = QueueView;

    closed spec fn view(&self) -> QueueView {
        QueueView {
            primary: pendings(self.items@),
            overflow: pendings(self.overflow@),
            flows: self.flows@,
            active: self.active@,
            normal: self.queue_size.normal as nat,
            overflowed: self.queue_size.overflow as nat,
            max_normal: self.max_normal_queue_size as nat,
            max_flow: match self.max_flow_size {
                Some(m) => Some(m as nat),
                None => None,
            },
            mode: self.mode,
            virtual_time: self.virtual_time,
            seqno: self.seqno,
            weight_sum: self.weight_sum as nat,
            accepted: self.accepted@,
            delivered: self.delivered@,
        }
    }
}

impl WeightedFairQueue {
    pub open spec fn wf(&self) -> bool {
        self@.inv()
    }

    /// An empty scheduler whose primary queue holds at most
    /// `max_normal_queue_size` bytes, with no per-flow cap.
    pub fn new(max_normal_queue_size: usize) -> (r: Self)
        ensures
            r.wf(),
            r@.primary.len() == 0,
            r@.overflow.len() == 0,
            r@.flows.is_empty(),
            r@.max_normal == max_normal_queue_size,
            r@.max_flow is None,
            r@.mode == WeightMode::PerFlow,
            r@.virtual_time == 0,
            r@.seqno == 0,
            r@.weight_sum == 0,
    {
        Self::with_config(max_normal_queue_size, None, WeightMode::PerFlow)
    }

    /// An empty scheduler that also rejects any item that would bring its
    /// flow above `max_flow_size` buffered bytes.
    pub fn with_max_flow_size(max_normal_queue_size: usize, max_flow_size: usize) -> (r: Self)
        requires
            max_flow_size <= max_normal_queue_size,
        ensures
            r.wf(),
            r@.primary.len() == 0,
            r@.overflow.len() == 0,
            r@.flows.is_empty(),
            r@.max_normal == max_normal_queue_size,
            r@.max_flow == Some(max_flow_size as nat),
            r@.mode == WeightMode::PerFlow,
            r@.virtual_time == 0,
            r@.seqno == 0,
            r@.weight_sum == 0,
    {
        Self::with_config(max_normal_queue_size, Some(max_flow_size), WeightMode::PerFlow)
    }

    /// An empty scheduler with the given bounds and weight mode.
    pub fn with_config(
        max_normal_queue_size: usize,
        max_flow_size: Option<usize>,
        mode: WeightMode,
    ) -> (r: Self)
        requires
            max_flow_size matches Some(m) ==> m <= max_normal_queue_size,
        ensures
            r.wf(),
            r@.primary.len() == 0,
            r@.overflow.len() == 0,
            r@.flows.is_empty(),
            r@.max_normal == max_normal_queue_size,
            r@.max_flow == match max_flow_size {
                Some(m) => Some(m as nat),
                None => None,
            },
            r@.mode == mode,
            r@.virtual_time == 0,
            r@.seqno == 0,
            r@.weight_sum == 0,
    {
        broadcast use group_hash_axioms;

        let r = Self {
            items: Vec::new(),
            overflow: Vec::new(),
            flows: HashMap::new(),
            queue_size: QueueSize::new(),
            max_normal_queue_size,
            max_flow_size,
            mode,
            virtual_time: 0,
            seqno: 0,
            weight_sum: 0,
            active: Ghost(Seq::empty()),
            accepted: Ghost(Multiset::empty()),
            delivered: Ghost(Multiset::empty()),
        };
        proof {
            assert(r@.primary =~= Seq::empty());
            assert(r@.overflow =~= Seq::empty());
            assert(r@.primary.to_multiset() =~= Multiset::empty());
            assert(r@.overflow.to_multiset() =~= Multiset::empty());
            assert(r@.contents() =~= Multiset::empty());
            assert(r@.accepted =~= r@.delivered.add(r@.contents()));
        }
        r
    }

    /// Admits `item`, or hands it back unchanged when the per-flow cap would
    /// be exceeded (or, unreachably in practice, when the arrival counter or the
    /// virtual clock is exhausted). An admitted item goes to the primary queue if
    /// it fits there, else to the overflow buffer.
    pub fn enqueue(&mut self, item: Item) -> (r: Option<Item>)
        requires
            old(self).wf(),
            item@.wf(),
            old(self)@.normal + old(self)@.overflowed + item@.size() <= usize::MAX,
        ensures
            final(self).wf(),
            r is Some <==> !old(self)@.admits(item@),
            r matches Some(x) ==> x@ == item@ && final(self)@ == old(self)@,
            r is None ==> old(self)@.enqueued(final(self)@, item@),
    {
        broadcast use group_hash_axioms;

        let ghost pre = self@;
        let size = item.data_size();
        let key = *item.flow_key();
        let existing: Option<FlowState> = match self.flows.get(&key) {
            Some(f) => Some(*f),
            None => None,
        };
        proof {
            lemma_flow_bytes_le(pre.primary, key);
            lemma_flow_bytes_le(pre.overflow, key);
        }
        let is_new = existing.is_none();
        let mut flow = match existing {
            Some(f) => f,
            None => {
                let w = item.weight();
                FlowState {
                    queue_size: QueueSize::new(),
                    last_virtual_finish_time: self.virtual_time,
                    weight: w,
                    inverse_weight: WEIGHT_SCALE / w,
                }
            },
        };
        proof {
            let w = flow.weight;
            assert(WEIGHT_SCALE / w <= WEIGHT_SCALE) by (nonlinear_arith)
                requires
                    w >= 1,
            ;
        }
        if let Some(m) = self.max_flow_size {
            let held = flow.queue_size.total();
            if size > m || held > m - size {
                return Some(item);
            }
        }
        if self.seqno == u64::MAX {
            return Some(item);
        }
        let price: u64 = match self.mode {
            WeightMode::PerFlow => flow.inverse_weight,
            WeightMode::PerItem => item.weight(),
        };
        proof {
            assert(size as int * price as int <= (u64::MAX as int) * (u64::MAX as int))
                by (nonlinear_arith)
                requires
                    size <= u64::MAX,
                    price <= u64::MAX,
            ;
        }
        let cost: u128 = size as u128 * price as u128;
        if flow.last_virtual_finish_time > u128::MAX - cost {
            return Some(item);
        }
        let finish = flow.last_virtual_finish_time + cost;
        flow.last_virtual_finish_time = finish;
        let fits = size <= self.max_normal_queue_size - self.queue_size.normal;
        if fits {
            flow.queue_size.normal = flow.queue_size.normal + size;
            self.queue_size.normal = self.queue_size.normal + size;
        } else {
            flow.queue_size.overflow = flow.queue_size.overflow + size;
            self.queue_size.overflow = self.queue_size.overflow + size;
        }
        self.flows.insert(key, flow);
        if is_new {
            proof {
                lemma_weight_total_bound(pre.active, pre.flows);
                let n = pre.active.len();
                assert(n * (u64::MAX as nat) + (u64::MAX as nat) <= (u64::MAX as nat) * (
                u64::MAX as nat)) by (nonlinear_arith)
                    requires
                        n < u64::MAX,
                ;
            }
            self.weight_sum = self.weight_sum + item.weight() as u128;
            proof {
                self.active@ = self.active@.push(key);
            }
        }
        let entry = Entry { item, seqno: self.seqno, finish };
        let ghost e = entry@;
        proof {
            self.accepted@ = self.accepted@.insert(e);
        }
        self.seqno = self.seqno + 1;
        if fits {
            self.items.push(entry);
        } else {
            self.overflow.push(entry);
        }
        proof {
            let post = self@;
            if fits {
                assert(post.primary =~= pre.primary.push(e));
                assert(post.overflow =~= pre.overflow);
                lemma_bytes_push(pre.primary, e);
            } else {
                assert(post.primary =~= pre.primary);
                assert(post.overflow =~= pre.overflow.push(e));
                lemma_bytes_push(pre.overflow, e);
            }
            assert(post.flows.dom() =~= pre.flows.dom().insert(key));
            assert forall|i: int| 0 <= i < post.primary.len() implies post.entry_ok(
                #[trigger] post.primary[i],
            ) by {
                if i < pre.primary.len() {
                    assert(pre.entry_ok(pre.primary[i]));
                }
            }
            assert forall|i: int| 0 <= i < post.overflow.len() implies post.entry_ok(
                #[trigger] post.overflow[i],
            ) by {
                if i < pre.overflow.len() {
                    assert(pre.entry_ok(pre.overflow[i]));
                }
            }
            assert forall|i: int| 0 <= i < pre.primary.len() implies pre.primary[i].seqno
                < e.seqno by {
                assert(pre.entry_ok(pre.primary[i]));
            }
            assert forall|i: int| 0 <= i < pre.overflow.len() implies pre.overflow[i].seqno
                < e.seqno by {
                assert(pre.entry_ok(pre.overflow[i]));
            }
            if is_new {
                assert forall|i: int| 0 <= i < pre.primary.len() implies pre.primary[i].item.flow_key
                    != key by {
                    assert(pre.entry_ok(pre.primary[i]));
                }
                assert forall|i: int| 0 <= i < pre.overflow.len() implies pre.overflow[i].item.flow_key
                    != key by {
                    assert(pre.entry_ok(pre.overflow[i]));
                }
                lemma_flow_bytes_absent(pre.primary, key);
                lemma_flow_bytes_absent(pre.overflow, key);
            } else {
                assert(pre.flow_ok(key));
            }
            assert forall|k: u64| #[trigger] post.flows.contains_key(k) implies post.flow_ok(k) by {
                if k != key {
                    assert(pre.flow_ok(k));
                } else {
                    assert(post.flows[k] == flow);
                }
            }
            assert forall|i: int| 0 <= i < pre.active.len() implies pre.flows[pre.active[i]].weight
                == post.flows[pre.active[i]].weight by {
                assert(pre.active.contains(pre.active[i]));
            }
            lemma_weight_total_frame(pre.active, pre.flows, post.flows);
            if is_new {
                assert(!pre.active.contains(key));
                lemma_weight_total_push(pre.active, post.flows, key);
                assert forall|k: u64| post.flows.contains_key(k) <==> #[trigger] post.active.contains(
                    k,
                ) by {
                    if k != key {
                        if pre.active.contains(k) {
                            let j = choose|j: int| 0 <= j < pre.active.len() && pre.active[j] == k;
                            assert(post.active[j] == k);
                        }
                        if post.active.contains(k) {
                            let j = choose|j: int|
                                0 <= j < post.active.len() && post.active[j] == k;
                            assert(pre.active[j] == k);
                        }
                    } else {
                        assert(post.active[pre.active.len() as int] == key);
                    }
                }
            } else {
                assert(post.active == pre.active);
            }
            assert(post.contents() =~= pre.contents().insert(e));
            assert(post.accepted =~= post.delivered.add(post.contents()));
        }
        None
    }

    /// Moves overflow entries into the primary queue, best first, while the
    /// next one fits.
    fn promote(&mut self)
        requires
            old(self).wf(),
        ensures
            final(self).wf(),
            final(self)@.promoted_from(old(self)@.primary, old(self)@.overflow),
            final(self)@.flows.dom() == old(self)@.flows.dom(),
            forall|k: u64| #[trigger]
                final(self)@.flows.contains_key(k) ==> final(self)@.flows[k].same_params(
                    old(self)@.flows[k],
                ),
            final(self)@.active == old(self)@.active,
            final(self)@.normal + final(self)@.overflowed == old(self)@.normal
                + old(self)@.overflowed,
            final(self)@.weight_sum == old(self)@.weight_sum,
            final(self)@.seqno == old(self)@.seqno,
            final(self)@.virtual_time == old(self)@.virtual_time,
            final(self)@.max_normal == old(self)@.max_normal,
            final(self)@.max_flow == old(self)@.max_flow,
            final(self)@.mode == old(self)@.mode,
            final(self)@.accepted == old(self)@.accepted,
            final(self)@.delivered == old(self)@.delivered,
    {
        broadcast use group_hash_axioms;

        let ghost pre = self@;
        loop
            invariant
                self.wf(),
                self@.contents() == pre.primary.to_multiset().add(pre.overflow.to_multiset()),
                forall|q: Pending| #[trigger] self@.overflow.contains(q) ==> pre.overflow.contains(q),
                forall|p: Pending, q: Pending|
                    pre.overflow.contains(p) && !self@.overflow.contains(p)
                        && self@.overflow.contains(q) ==> #[trigger] outranks(p, q),
                self@.flows.dom() == pre.flows.dom(),
                forall|k: u64| #[trigger]
                    self@.flows.contains_key(k) ==> self@.flows[k].same_params(pre.flows[k]),
                self@.active == pre.active,
                self@.normal + self@.overflowed == pre.normal + pre.overflowed,
                self@.weight_sum == pre.weight_sum,
                self@.seqno == pre.seqno,
                self@.virtual_time == pre.virtual_time,
                self@.max_normal == pre.max_normal,
                self@.max_flow == pre.max_flow,
                self@.mode == pre.mode,
                self@.accepted == pre.accepted,
                self@.delivered == pre.delivered,
            ensures
                self@.promoted_from(pre.primary, pre.overflow),
                self@.flows.dom() == pre.flows.dom(),
                forall|k: u64| #[trigger]
                    self@.flows.contains_key(k) ==> self@.flows[k].same_params(pre.flows[k]),
                self@.active == pre.active,
                self@.normal + self@.overflowed == pre.normal + pre.overflowed,
                self@.weight_sum == pre.weight_sum,
                self@.seqno == pre.seqno,
                self@.virtual_time == pre.virtual_time,
                self@.max_normal == pre.max_normal,
                self@.max_flow == pre.max_flow,
                self@.mode == pre.mode,
                self@.accepted == pre.accepted,
                self@.delivered == pre.delivered,
                self.wf(),
            decreases self.overflow.len(),
        {
            let ghost s0 = self@;
            if self.overflow.len() == 0 {
                break;
            }
            let b = best_index(&self.overflow);
            let size = self.overflow[b].item.data_size();
            if size > self.max_normal_queue_size - self.queue_size.normal {
                proof {
                    assert forall|i: int| #[trigger] is_best(s0.overflow, i) implies i == b by {
                        assert(ranks_at_least(s0.overflow[i], s0.overflow[b as int]));
                        assert(ranks_at_least(s0.overflow[b as int], s0.overflow[i]));
                    }
                }
                break;
            }
            let entry = self.overflow.remove(b);
            let ghost x = entry@;
            let key = *entry.item.flow_key();
            proof {
                assert(s0.entry_ok(s0.overflow[b as int]));
                assert(s0.flow_ok(key));
                lemma_bytes_remove(s0.overflow, b as int);
                lemma_bytes_push(s0.primary, x);
                lemma_flow_bytes_le(s0.primary, key);
            }
            let mut f = match self.flows.get(&key) {
                Some(f) => *f,
                None => {
                    proof {
                        assert(false);
                    }
                    return;
                },
            };
            f.queue_size.normal = f.queue_size.normal + size;
            f.queue_size.overflow = f.queue_size.overflow - size;
            self.flows.insert(key, f);
            self.queue_size.normal = self.queue_size.normal + size;
            self.queue_size.overflow = self.queue_size.overflow - size;
            self.items.push(entry);
            proof {
                let s1 = self@;
                let ov = s0.overflow;
                assert(s1.primary =~= s0.primary.push(x));
                assert(s1.overflow =~= ov.remove(b as int));
                ov.remove_ensures(b as int);
                assert(s1.flows.dom() =~= s0.flows.dom());
                assert forall|j: int| 0 <= j < s1.overflow.len() implies s1.overflow[j] == ov[
                    if j < b {
                        j
                    } else {
                        j + 1
                    }] by {}
                assert forall|q: Pending| #[trigger] s1.overflow.contains(q) implies ov.contains(q) by {
                    let j = choose|j: int| 0 <= j < s1.overflow.len() && s1.overflow[j] == q;
                    assert(ov[if j < b { j } else { j + 1 }] == q);
                }
                assert forall|p: Pending, q: Pending|
                    pre.overflow.contains(p) && !s1.overflow.contains(p) && s1.overflow.contains(q)
                        implies #[trigger] outranks(p, q) by {
                    let jq = choose|j: int| 0 <= j < s1.overflow.len() && s1.overflow[j] == q;
                    let iq = if jq < b { jq } else { jq + 1 };
                    assert(ov[iq] == q);
                    if ov.contains(p) {
                        let jp = choose|j: int| 0 <= j < ov.len() && ov[j] == p;
                        if jp != b {
                            let k = if jp < b { jp } else { jp - 1 };
                            assert(s1.overflow[k] == p);
                        }
                        assert(p == x);
                        assert(ranks_at_least(x, ov[iq]));
                        assert(ov[b as int].seqno != ov[iq].seqno);
                    }
                }
                assert forall|i: int| 0 <= i < s1.primary.len() implies s1.entry_ok(
                    #[trigger] s1.primary[i],
                ) by {
                    if i < s0.primary.len() {
                        assert(s0.entry_ok(s0.primary[i]));
                    }
                }
                assert forall|i: int| 0 <= i < s1.overflow.len() implies s1.entry_ok(
                    #[trigger] s1.overflow[i],
                ) by {
                    assert(s0.entry_ok(ov[if i < b { i } else { i + 1 }]));
                }
                assert(distinct(s1.primary)) by {
                    assert forall|i: int, j: int|
                        0 <= i < s1.primary.len() && 0 <= j < s1.primary.len() && i != j implies
                        s1.primary[i].seqno != s1.primary[j].seqno by {
                        if i == s0.primary.len() {
                            assert(s0.primary[j].seqno != ov[b as int].seqno);
                        } else if j == s0.primary.len() {
                            assert(s0.primary[i].seqno != ov[b as int].seqno);
                        }
                    }
                }
                assert(distinct(s1.overflow)) by {
                    assert forall|i: int, j: int|
                        0 <= i < s1.overflow.len() && 0 <= j < s1.overflow.len() && i != j implies
                        s1.overflow[i].seqno != s1.overflow[j].seqno by {
                        let ii = if i < b { i } else { i + 1 };
                        let jj = if j < b { j } else { j + 1 };
                        assert(ov[ii].seqno != ov[jj].seqno);
                    }
                }
                assert(disjoint(s1.primary, s1.overflow)) by {
                    assert forall|i: int, j: int|
                        0 <= i < s1.primary.len() && 0 <= j < s1.overflow.len() implies
                        s1.primary[i].seqno != s1.overflow[j].seqno by {
                        let jj = if j < b { j } else { j + 1 };
                        if i == s0.primary.len() {
                            assert(ov[b as int].seqno != ov[jj].seqno);
                        } else {
                            assert(s0.primary[i].seqno != ov[jj].seqno);
                        }
                    }
                }
                assert forall|k: u64| #[trigger] s1.flows.contains_key(k) implies s1.flow_ok(k) by {
                    assert(s0.flow_ok(k));
                }
                assert forall|i: int| 0 <= i < s0.active.len() implies s0.flows[s0.active[i]].weight
                    == s1.flows[s0.active[i]].weight by {
                    assert(s0.active.contains(s0.active[i]));
                }
                lemma_weight_total_frame(s0.active, s0.flows, s1.flows);
                assert(ov.to_multiset().count(x) > 0);
                assert(s1.contents() =~= s0.contents());
            }
        }
    }

    /// Removes and returns the primary entry with the smallest virtual finish
    /// time (earliest arrival among equals), sets the virtual time to its
    /// finish time, retires its flow if nothing of it is left, and then
    /// promotes overflow entries that now fit. Returns `None` exactly when the
    /// primary queue is empty; the overflow buffer is not consulted for that.
    pub fn dequeue(&mut self) -> (r: Option<Item>)
        requires
            old(self).wf(),
        ensures
            final(self).wf(),
            old(self)@.dequeued(final(self)@, item_view(r)),
    {
        broadcast use group_hash_axioms;

        let ghost pre = self@;
        if self.items.len() == 0 {
            return None;
        }
        let i = next_due_index(&self.items);
        let entry = self.items.remove(i);
        let ghost e = entry@;
        let size = entry.item.data_size();
        let key = *entry.item.flow_key();
        proof {
            assert(pre.entry_ok(e));
            assert(pre.flow_ok(key));
            lemma_bytes_remove(pre.primary, i as int);
        }
        self.virtual_time = entry.finish;
        self.queue_size.normal = self.queue_size.normal - size;
        let mut f = match self.flows.get(&key) {
            Some(f) => *f,
            None => {
                proof {
                    assert(false);
                }
                return None;
            },
        };
        f.queue_size.normal = f.queue_size.normal - size;
        let gone = f.queue_size.normal == 0 && f.queue_size.overflow == 0;
        if gone {
            self.flows.remove(&key);
            proof {
                assert(pre.active.contains(key));
                let idx = choose|j: int| 0 <= j < pre.active.len() && pre.active[j] == key;
                lemma_weight_total_remove(pre.active, pre.flows, idx);
                self.active@ = pre.active.remove(idx);
                pre.active.remove_ensures(idx);
                assert forall|j: int| 0 <= j < self.active@.len() implies self.active@[j] != key
                    && pre.flows[self.active@[j]].weight == self.flows@[self.active@[j]].weight by {
                    let jj = if j < idx { j } else { j + 1 };
                    assert(pre.active[jj] == self.active@[j]);
                    assert(pre.active.contains(pre.active[jj]));
                }
                lemma_weight_total_frame(self.active@, pre.flows, self.flows@);
                assert forall|k: u64| self.flows@.contains_key(k) <==> #[trigger] self.active@.contains(
                    k,
                ) by {
                    if self.active@.contains(k) {
                        let j = choose|j: int| 0 <= j < self.active@.len() && self.active@[j] == k;
                        let jj = if j < idx { j } else { j + 1 };
                        assert(pre.active[jj] == k);
                    }
                    if k != key && pre.active.contains(k) {
                        let j = choose|j: int| 0 <= j < pre.active.len() && pre.active[j] == k;
                        assert(j != idx);
                        let jj = if j < idx { j } else { j - 1 };
                        assert(self.active@[jj] == k);
                    }
                }
                assert(self.active@.no_duplicates()) by {
                    assert forall|a: int, c: int|
                        0 <= a < self.active@.len() && 0 <= c < self.active@.len() && a != c implies
                        self.active@[a] != self.active@[c] by {
                        let aa = if a < idx { a } else { a + 1 };
                        let cc = if c < idx { c } else { c + 1 };
                        assert(pre.active[aa] != pre.active[cc]);
                    }
                }
            }
            self.weight_sum = self.weight_sum - f.weight as u128;
        } else {
            self.flows.insert(key, f);
            proof {
                assert forall|j: int| 0 <= j < pre.active.len() implies pre.flows[pre.active[j]].weight
                    == self.flows@[pre.active[j]].weight by {
                    assert(pre.active.contains(pre.active[j]));
                }
                lemma_weight_total_frame(pre.active, pre.flows, self.flows@);
            }
        }
        proof {
            self.delivered@ = self.delivered@.insert(e);
            let mid = self@;
            let rest = pre.primary.remove(i as int);
            pre.primary.remove_ensures(i as int);
            assert(mid.primary =~= rest);
            assert(mid.overflow =~= pre.overflow);
            assert forall|j: int| 0 <= j < rest.len() implies rest[j] == pre.primary[
                if j < i {
                    j
                } else {
                    j + 1
                }] by {}
            if gone {
                assert forall|j: int| 0 <= j < rest.len() implies rest[j].item.flow_key != key by {
                    if rest[j].item.flow_key == key {
                        lemma_flow_bytes_pos(rest, key, j);
                    }
                }
                assert forall|j: int| 0 <= j < pre.overflow.len() implies pre.overflow[j].item.flow_key
                    != key by {
                    if pre.overflow[j].item.flow_key == key {
                        lemma_flow_bytes_pos(pre.overflow, key, j);
                    }
                }
            }
            assert forall|j: int| 0 <= j < mid.primary.len() implies mid.entry_ok(
                #[trigger] mid.primary[j],
            ) by {
                assert(pre.entry_ok(pre.primary[if j < i { j } else { j + 1 }]));
            }
            assert forall|j: int| 0 <= j < mid.overflow.len() implies mid.entry_ok(
                #[trigger] mid.overflow[j],
            ) by {
                assert(pre.entry_ok(pre.overflow[j]));
            }
            assert(distinct(mid.primary)) by {
                assert forall|a: int, c: int|
                    0 <= a < rest.len() && 0 <= c < rest.len() && a != c implies rest[a].seqno
                    != rest[c].seqno by {
                    let aa = if a < i { a } else { a + 1 };
                    let cc = if c < i { c } else { c + 1 };
                    assert(pre.primary[aa].seqno != pre.primary[cc].seqno);
                }
            }
            assert(disjoint(mid.primary, mid.overflow)) by {
                assert forall|a: int, c: int|
                    0 <= a < rest.len() && 0 <= c < pre.overflow.len() implies rest[a].seqno
                    != pre.overflow[c].seqno by {
                    let aa = if a < i { a } else { a + 1 };
                    assert(pre.primary[aa].seqno != pre.overflow[c].seqno);
                }
            }
            assert forall|k: u64| #[trigger] mid.flows.contains_key(k) implies mid.flow_ok(k) by {
                assert(pre.flow_ok(k));
            }
            assert(mid.contents() =~= pre.contents().remove(e));
            assert(pre.primary.to_multiset().count(e) > 0);
            assert(mid.accepted =~= mid.delivered.add(mid.contents()));
            assert(mid.inv());
        }
        let ghost mid = self@;
        self.promote();
        proof {
            let post = self@;
            assert forall|k2: u64| #[trigger]
                post.flows.contains_key(k2) implies post.flows[k2].same_params(pre.flows[k2]) by {
                assert(mid.flows.contains_key(k2));
            }
            assert(pre.dequeued_at(post, Some(e.item), i as int));
        }
        Some(entry.item)
    }

    /// Snapshot of the byte counts.
    pub fn queue_size(&self) -> (r: QueueSize)
        requires
            self.wf(),
        ensures
            r.normal_bytes() == self@.normal,
            r.overflow_bytes() == self@.overflowed,
            r.total_bytes() <= usize::MAX,
    {
        self.queue_size
    }

    /// The active flows.
    pub fn flows(&self) -> (r: &HashMap<u64, FlowState>)
        ensures
            r@ == self@.flows,
    {
        &self.flows
    }

    /// The global virtual time: the finish time of the latest dequeued item.
    pub fn virtual_time(&self) -> (r: u128)
        ensures
            r == self@.virtual_time,
    {
        self.virtual_time
    }

    /// Sum of the weights of the active flows.
    pub fn weight_sum(&self) -> (r: u128)
        ensures
            r == self@.weight_sum,
    {
        self.weight_sum
    }
}

} // verus!
