//! Kahn's algorithm with a first-in-first-out ready queue, as a state that is
//! advanced one node at a time.
//!
//! The in-degree of a node is the number of its prerequisite entries that
//! have not been sent. It starts as the number of its prerequisites and is
//! lowered, when a node is sent, once for each entry that names that node;
//! a node is queued when its in-degree has come down to zero.

use vstd::prelude::*;
use crate::error::ExplorerError;
use crate::graph::{
    CommandGraph, CommandNode, is_chain, identity_order, lemma_chain_has_order,
    lemma_chain_unique_order, ready, placed_after_deps, is_valid_sequence, is_total_order,
    has_total_order, membership, lemma_count_all, lemma_valid_count, lemma_valid_prefix,
    lemma_extend_valid, lemma_full_valid_is_total,
};

verus! {

/// One pass over the nodes `0..upto` in ascending order: each node that is not
/// yet in the queue and whose prerequisites all occur in `done` is appended.
pub open spec fn kahn_scan(g: Seq<CommandNode>, queue: Seq<usize>, done: Seq<usize>, upto: int) -> Seq<usize>
    decreases upto,
{
    if upto <= 0 {
        queue
    } else {
        let q = kahn_scan(g, queue, done, upto - 1);
        let j = (upto - 1) as usize;
        if !q.contains(j) && ready(g, done, j as int) {
            q.push(j)
        } else {
            q
        }
    }
}

/// The queue as it stands when nothing is left to dequeue, starting from a
/// queue whose first `head` entries have been sent.
pub open spec fn kahn_from(g: Seq<CommandNode>, queue: Seq<usize>, head: int) -> Seq<usize>
    decreases g.len() - head,
{
    if head < 0 || head >= queue.len() || head >= g.len() {
        queue
    } else {
        kahn_from(g, kahn_scan(g, queue, queue.take(head + 1), g.len() as int), head + 1)
    }
}

/// The order in which Kahn's algorithm sends the nodes of `g` when ties are
/// broken first-in-first-out and the queue is seeded in ascending index order.
/// For a graph without a total order it holds the nodes sent before the queue
/// ran empty.
pub open spec fn kahn_order(g: Seq<CommandNode>) -> Seq<usize> {
    kahn_from(g, kahn_scan(g, Seq::<usize>::empty(), Seq::<usize>::empty(), g.len() as int), 0)
}

/// A scan only appends to the queue.
proof fn lemma_scan_extends(g: Seq<CommandNode>, queue: Seq<usize>, done: Seq<usize>, upto: int)
    ensures
        queue.len() <= kahn_scan(g, queue, done, upto).len(),
        kahn_scan(g, queue, done, upto).take(queue.len() as int) == queue,
    decreases upto,
{
    let r = kahn_scan(g, queue, done, upto);
    if upto <= 0 {
        assert(r.take(queue.len() as int) =~= queue);
    } else {
        lemma_scan_extends(g, queue, done, upto - 1);
        let q = kahn_scan(g, queue, done, upto - 1);
        assert(r.take(queue.len() as int) =~= q.take(queue.len() as int));
    }
}

/// A run only appends to the queue.
proof fn lemma_from_extends(g: Seq<CommandNode>, queue: Seq<usize>, head: int)
    ensures
        queue.len() <= kahn_from(g, queue, head).len(),
        kahn_from(g, queue, head).take(queue.len() as int) == queue,
    decreases g.len() - head,
{
    if head < 0 || head >= queue.len() || head >= g.len() {
        assert(queue.take(queue.len() as int) =~= queue);
    } else {
        let q = kahn_scan(g, queue, queue.take(head + 1), g.len() as int);
        lemma_scan_extends(g, queue, queue.take(head + 1), g.len() as int);
        lemma_from_extends(g, q, head + 1);
        let r = kahn_from(g, q, head + 1);
        assert(r.take(queue.len() as int) =~= r.take(q.len() as int).take(queue.len() as int));
    }
}

/// Every entry of a valid sequence lies in any sequence that is closed under
/// readiness: one that holds each node whose prerequisites it holds.
proof fn lemma_closed_holds_valid(g: Seq<CommandNode>, closed: Seq<usize>, s: Seq<usize>, p: int)
    requires
        forall|j: int| 0 <= j < g.len() && ready(g, closed, j) ==> closed.contains(j as usize),
        is_valid_sequence(g, s),
        0 <= p <= s.len(),
    ensures
        forall|q: int| 0 <= q < p ==> closed.contains(#[trigger] s[q]),
    decreases p,
{
    if p > 0 {
        lemma_closed_holds_valid(g, closed, s, p - 1);
        let v = s[p - 1];
        assert(placed_after_deps(g, s, p - 1));
        assert forall|k: int| 0 <= k < g[v as int].deps@.len() implies closed.contains(
            #[trigger] g[v as int].deps@[k],
        ) by {
            let d = g[v as int].deps@[k];
            let t = s.take(p - 1);
            assert(t.contains(d));
            let q = choose|q: int| 0 <= q < t.len() && t[q] == d;
            assert(s[q] == d);
        }
        assert(ready(g, closed, v as int));
    }
}

/// Every node below `upto` whose prerequisites all occur in `done` is in
/// `queue`.
pub open spec fn closed_upto(g: Seq<CommandNode>, queue: Seq<usize>, done: Seq<usize>, upto: int) -> bool {
    forall|j: int| 0 <= j < upto && j < g.len() && ready(g, done, j) ==> queue.contains(j as usize)
}

/// A scan keeps the queue a valid sequence and leaves every node below
/// `upto` that is ready after the first `head` entries in the queue.
proof fn lemma_scan_sound(g: Seq<CommandNode>, queue: Seq<usize>, head: int, upto: int)
    requires
        is_valid_sequence(g, queue),
        0 <= head <= queue.len(),
        0 <= upto <= g.len(),
        g.len() <= usize::MAX,
    ensures
        is_valid_sequence(g, kahn_scan(g, queue, queue.take(head), upto)),
        closed_upto(g, kahn_scan(g, queue, queue.take(head), upto), queue.take(head), upto),
    decreases upto,
{
    let done = queue.take(head);
    if upto > 0 {
        lemma_scan_sound(g, queue, head, upto - 1);
        lemma_scan_extends(g, queue, done, upto - 1);
        let before = kahn_scan(g, queue, done, upto - 1);
        let after = kahn_scan(g, queue, done, upto);
        let j = (upto - 1) as usize;
        if !before.contains(j) && ready(g, done, j as int) {
            assert forall|k: int| 0 <= k < g[j as int].deps@.len() implies before.contains(#[trigger] g[j as int].deps@[k]) by {
                let d = g[j as int].deps@[k];
                let i = choose|i: int| 0 <= i < done.len() && done[i] == d;
                assert(before.take(queue.len() as int)[i] == d);
                assert(before[i] == d);
            }
            lemma_extend_valid(g, before, j);
            assert(after[before.len() as int] == j);
            assert forall|i: int| 0 <= i < upto && i < g.len() && ready(g, done, i) implies after.contains(i as usize) by {
                if i < upto - 1 {
                    let p = choose|p: int| 0 <= p < before.len() && before[p] == i as usize;
                    assert(after[p] == i as usize);
                }
            }
        }
    }
}

/// From a valid queue that holds every node that is ready after its first
/// `head` entries, the run ends in a valid sequence that holds every node
/// whose prerequisites it holds.
proof fn lemma_from_sound(g: Seq<CommandNode>, queue: Seq<usize>, head: int)
    requires
        is_valid_sequence(g, queue),
        0 <= head <= queue.len(),
        g.len() <= usize::MAX,
        closed_upto(g, queue, queue.take(head), g.len() as int),
    ensures
        is_valid_sequence(g, kahn_from(g, queue, head)),
        closed_upto(g, kahn_from(g, queue, head), kahn_from(g, queue, head), g.len() as int),
    decreases g.len() - head,
{
    lemma_valid_count(g, queue);
    if head >= queue.len() {
        assert(queue.take(head) =~= queue);
    } else {
        let next = kahn_scan(g, queue, queue.take(head + 1), g.len() as int);
        lemma_scan_sound(g, queue, head + 1, g.len() as int);
        lemma_scan_extends(g, queue, queue.take(head + 1), g.len() as int);
        assert(next.take(head + 1) =~= next.take(queue.len() as int).take(head + 1));
        lemma_from_sound(g, next, head + 1);
    }
}

/// Kahn's order is a valid sequence. It holds every node exactly when the
/// graph has a total order, and then it is one.
pub proof fn lemma_kahn_order_sound(g: Seq<CommandNode>)
    requires
        g.len() <= usize::MAX,
    ensures
        is_valid_sequence(g, kahn_order(g)),
        kahn_order(g).len() <= g.len(),
        kahn_order(g).len() == g.len() <==> has_total_order(g),
        has_total_order(g) ==> is_total_order(g, kahn_order(g)),
{
    let none = Seq::<usize>::empty();
    let seeded = kahn_scan(g, none, none, g.len() as int);
    assert(none.take(0) =~= none);
    lemma_scan_sound(g, none, 0, g.len() as int);
    assert(seeded.take(0) =~= none);
    lemma_from_sound(g, seeded, 0);
    let order = kahn_order(g);
    lemma_valid_count(g, order);
    if order.len() == g.len() {
        lemma_full_valid_is_total(g, order);
    }
    if has_total_order(g) {
        let s = choose|s: Seq<usize>| is_total_order(g, s);
        lemma_closed_holds_valid(g, order, s, s.len() as int);
        let flags = membership(g.len(), order);
        assert forall|j: int| 0 <= j < flags.len() implies flags[j] by {
            assert(s.contains(j as usize));
            let q = choose|q: int| 0 <= q < s.len() && s[q] == j as usize;
            assert(order.contains(s[q]));
            let p = choose|p: int| 0 <= p < order.len() && order[p] == j as usize;
            assert(order[p] == j);
        }
        lemma_count_all(flags);
        lemma_full_valid_is_total(g, order);
    }
}

/// On a single chain Kahn's order is `0, 1, .., n - 1`.
pub proof fn lemma_chain_kahn_order(g: Seq<CommandNode>)
    requires
        is_chain(g),
        g.len() <= usize::MAX,
    ensures
        kahn_order(g) == identity_order(g.len()),
{
    lemma_chain_has_order(g);
    lemma_kahn_order_sound(g);
    lemma_chain_unique_order(g, kahn_order(g));
}

/// The prerequisite `d` is flagged in `sent`.
pub open spec fn is_sent(sent: Seq<bool>, d: usize) -> bool {
    d < sent.len() && sent[d as int]
}

/// The in-degree of a node with the prerequisites `deps`: the number of
/// entries of `deps` that are not flagged in `sent`.
pub open spec fn pending(deps: Seq<usize>, sent: Seq<bool>) -> nat
    decreases deps.len(),
{
    if deps.len() == 0 {
        0
    } else {
        pending(deps.drop_last(), sent) + if is_sent(sent, deps.last()) { 0nat } else { 1nat }
    }
}

/// The number of entries of `deps` that name node `v`.
pub open spec fn occurrences(deps: Seq<usize>, v: usize) -> nat
    decreases deps.len(),
{
    if deps.len() == 0 {
        0
    } else {
        occurrences(deps.drop_last(), v) + if deps.last() == v { 1nat } else { 0nat }
    }
}

/// Before anything is sent the in-degree is the number of prerequisites.
proof fn lemma_pending_fresh(deps: Seq<usize>, sent: Seq<bool>)
    requires
        forall|i: int| 0 <= i < sent.len() ==> !sent[i],
    ensures
        pending(deps, sent) == deps.len(),
    decreases deps.len(),
{
    if deps.len() > 0 {
        lemma_pending_fresh(deps.drop_last(), sent);
    }
}

/// Sending node `v` lowers the in-degree by the number of entries that
/// name `v`.
proof fn lemma_pending_mark(deps: Seq<usize>, sent: Seq<bool>, v: usize)
    requires
        v < sent.len(),
        !sent[v as int],
    ensures
        pending(deps, sent) == pending(deps, sent.update(v as int, true)) + occurrences(deps, v),
    decreases deps.len(),
{
    if deps.len() > 0 {
        lemma_pending_mark(deps.drop_last(), sent, v);
    }
}

/// The in-degree is zero exactly when every prerequisite has been sent.
proof fn lemma_pending_zero(deps: Seq<usize>, sent: Seq<bool>)
    ensures
        pending(deps, sent) == 0 <==> forall|k: int| 0 <= k < deps.len() ==> is_sent(sent, #[trigger] deps[k]),
    decreases deps.len(),
{
    if deps.len() > 0 {
        let front = deps.drop_last();
        lemma_pending_zero(front, sent);
        if pending(deps, sent) == 0 {
            assert forall|k: int| 0 <= k < deps.len() implies is_sent(sent, #[trigger] deps[k]) by {
                if k < front.len() {
                    assert(front[k] == deps[k]);
                }
            }
        }
        if forall|k: int| 0 <= k < deps.len() ==> is_sent(sent, #[trigger] deps[k]) {
            assert forall|k: int| 0 <= k < front.len() implies is_sent(sent, #[trigger] front[k]) by {
                assert(front[k] == deps[k]);
            }
            assert(is_sent(sent, deps[deps.len() - 1]));
        }
    }
}

/// The entries that name `v` among the first `k + 1` are those among the
/// first `k` and the entry at `k`, and no more than among all.
proof fn lemma_occurrences_step(deps: Seq<usize>, v: usize, k: int)
    requires
        0 <= k < deps.len(),
    ensures
        occurrences(deps.take(k + 1), v) == occurrences(deps.take(k), v) + if deps[k] == v { 1nat } else { 0nat },
        occurrences(deps.take(k + 1), v) <= occurrences(deps, v),
    decreases deps.len() - k,
{
    assert(deps.take(k + 1).drop_last() =~= deps.take(k));
    if k + 1 < deps.len() {
        lemma_occurrences_step(deps, v, k + 1);
    } else {
        assert(deps.take(k + 1) =~= deps);
    }
}

/// A vector of `n` flags, all `false`.
fn cleared_flags(n: usize) -> (r: Vec<bool>)
    ensures
        r@.len() == n,
        forall|i: int| 0 <= i < n ==> !r@[i],
{
    let mut r: Vec<bool> = Vec::new();
    let mut i: usize = 0;
    while i < n
        invariant
            i <= n,
            r@.len() == i,
            forall|k: int| 0 <= k < i ==> !r@[k],
        decreases n - i,
    {
        r.push(false);
        i += 1;
    }
    r
}

/// The working state of one run of Kahn's algorithm over a graph.
pub struct KahnState {
    in_degree: Vec<usize>,
    queue: Vec<usize>,
    head: usize,
    enqueued: Vec<bool>,
    sent: Vec<bool>,
}

impl KahnState {
    /// The bookkeeping agrees with the queue, which is a valid sequence.
    closed spec fn base(&self, g: Seq<CommandNode>) -> bool {
        &&& g.len() <= usize::MAX
        &&& self.in_degree@.len() == g.len()
        &&& self.enqueued@.len() == g.len()
        &&& self.sent@.len() == g.len()
        &&& self.head <= self.queue@.len()
        &&& forall|j: int| 0 <= j < g.len() ==> #[trigger] self.in_degree@[j] == pending(g[j].deps@, self.sent@)
        &&& is_valid_sequence(g, self.queue@)
        &&& forall|j: int| 0 <= j < g.len() ==> (#[trigger] self.enqueued@[j] <==> self.queue@.contains(j as usize))
        &&& forall|j: int| 0 <= j < g.len() ==> (#[trigger] self.sent@[j] <==> self.queue@.take(self.head as int).contains(j as usize))
    }

    /// The state is consistent with a run over `g`.
    pub closed spec fn wf(&self, g: Seq<CommandNode>) -> bool {
        &&& self.base(g)
        &&& kahn_from(g, self.queue@, self.head as int) == kahn_order(g)
    }

    /// The nodes sent so far, in the order in which they were sent.
    pub closed spec fn sent_order(&self) -> Seq<usize> {
        self.queue@.take(self.head as int)
    }

    /// What a consistent state says of the order: the nodes sent so far are a
    /// valid sequence and the beginning of `kahn_order(g)`.
    pub proof fn lemma_progress(&self, g: Seq<CommandNode>)
        requires
            self.wf(g),
        ensures
            self.sent_order().len() <= kahn_order(g).len(),
            self.sent_order().len() <= g.len(),
            self.sent_order() == kahn_order(g).take(self.sent_order().len() as int),
            is_valid_sequence(g, self.sent_order()),
    {
        let q = self.queue@;
        let h = self.head as int;
        lemma_from_extends(g, q, h);
        let full = kahn_order(g);
        assert(q.take(h) =~= full.take(q.len() as int).take(h));
        assert(full.take(q.len() as int).take(h) =~= full.take(h));
        lemma_valid_count(g, q);
        lemma_valid_prefix(g, q, h);
    }

    /// Appends, in ascending index order, every node that is not yet queued
    /// and whose prerequisites have all been sent.
    fn scan(&mut self, graph: &CommandGraph)
        requires
            old(self).base(graph@),
        ensures
            final(self).base(graph@),
            final(self).head == old(self).head,
            final(self).queue@ == kahn_scan(
                graph@,
                old(self).queue@,
                old(self).queue@.take(old(self).head as int),
                graph@.len() as int,
            ),
    {
        let n: usize = graph.len();
        let ghost g = graph@;
        let ghost q0 = self.queue@;
        let ghost done = q0.take(self.head as int);
        let mut j: usize = 0;
        while j < n
            invariant
                j <= n,
                n == g.len(),
                g == graph@,
                self.base(g),
                self.head == old(self).head,
                self.queue@.take(self.head as int) == done,
                self.queue@ == kahn_scan(g, q0, done, j as int),
            decreases n - j,
        {
            let ghost q = self.queue@;
            let is_new: bool = !self.enqueued[j];
            let met: bool = self.in_degree[j] == 0;
            proof {
                lemma_pending_zero(g[j as int].deps@, self.sent@);
                if met {
                    assert forall|k: int| 0 <= k < g[j as int].deps@.len() implies done.contains(
                        #[trigger] g[j as int].deps@[k],
                    ) by {
                        let d = g[j as int].deps@[k];
                        assert(is_sent(self.sent@, d));
                        assert(self.sent@[d as int]);
                    }
                } else {
                    if ready(g, done, j as int) {
                        let k = choose|k: int| 0 <= k < g[j as int].deps@.len() && !is_sent(self.sent@, #[trigger] g[j as int].deps@[k]);
                        let d = g[j as int].deps@[k];
                        assert(done.contains(d));
                        let i = choose|i: int| 0 <= i < done.len() && done[i] == d;
                        assert(q[i] == d);
                        assert(placed_after_deps(g, q, i));
                        assert(self.sent@[d as int]);
                    }
                }
                assert(met == ready(g, done, j as int));
                assert(is_new == !q.contains(j));
            }
            if is_new && met {
                proof {
                    let q2 = q.push(j);
                    assert(q2.take(self.head as int) =~= done);
                    assert forall|p: int| 0 <= p < q2.len() implies #[trigger] placed_after_deps(g, q2, p) by {
                        if p < q.len() {
                            assert(placed_after_deps(g, q, p));
                            assert(q2.take(p) =~= q.take(p));
                        } else {
                            assert(q2.take(p) =~= q);
                            assert forall|k: int| 0 <= k < g[j as int].deps@.len() implies q.contains(
                                #[trigger] g[j as int].deps@[k],
                            ) by {
                                let d = g[j as int].deps@[k];
                                assert(done.contains(d));
                                let i = choose|i: int| 0 <= i < done.len() && done[i] == d;
                                assert(q[i] == d);
                            }
                        }
                    }
                    assert(q2.no_duplicates());
                    assert forall|i: int| 0 <= i < g.len() implies (#[trigger] self.enqueued@.update(j as int, true)[i]
                        <==> q2.contains(i as usize)) by {
                        if i == j {
                            assert(q2[q.len() as int] == j);
                        } else if q2.contains(i as usize) {
                            let p = choose|p: int| 0 <= p < q2.len() && q2[p] == i as usize;
                            assert(q[p] == i as usize);
                        } else if q.contains(i as usize) {
                            let p = choose|p: int| 0 <= p < q.len() && q[p] == i as usize;
                            assert(q2[p] == i as usize);
                        }
                    }
                }
                self.queue.push(j);
                self.enqueued.set(j, true);
            }
            j += 1;
        }
    }

    /// Lowers the in-degree of every node by the number of its prerequisite
    /// entries that name `v`, the node that was just flagged as sent.
    fn release(&mut self, graph: &CommandGraph, v: usize, Ghost(before): Ghost<Seq<bool>>)
        requires
            old(self).in_degree@.len() == graph@.len(),
            before.len() == graph@.len(),
            v < graph@.len(),
            !before[v as int],
            old(self).sent@ == before.update(v as int, true),
            forall|j: int| 0 <= j < graph@.len() ==> #[trigger] old(self).in_degree@[j] == pending(graph@[j].deps@, before),
        ensures
            final(self).queue@ == old(self).queue@,
            final(self).head == old(self).head,
            final(self).enqueued@ == old(self).enqueued@,
            final(self).sent@ == old(self).sent@,
            final(self).in_degree@.len() == graph@.len(),
            forall|j: int| 0 <= j < graph@.len() ==> #[trigger] final(self).in_degree@[j] == pending(
                graph@[j].deps@,
                final(self).sent@,
            ),
    {
        let ghost g = graph@;
        let ghost after = self.sent@;
        let n: usize = graph.len();
        let mut j: usize = 0;
        while j < n
            invariant
                j <= n,
                n == g.len(),
                g == graph@,
                self.queue@ == old(self).queue@,
                self.head == old(self).head,
                self.enqueued@ == old(self).enqueued@,
                self.sent@ == after,
                after == before.update(v as int, true),
                v < before.len(),
                !before[v as int],
                self.in_degree@.len() == n,
                forall|i: int| 0 <= i < j ==> #[trigger] self.in_degree@[i] == pending(g[i].deps@, after),
                forall|i: int| j <= i < n ==> #[trigger] self.in_degree@[i] == pending(g[i].deps@, before),
            decreases n - j,
        {
            let deps = &graph.node(j).deps;
            proof {
                lemma_pending_mark(deps@, before, v);
                assert(deps@.take(0) =~= Seq::<usize>::empty());
            }
            let mut k: usize = 0;
            while k < deps.len()
                invariant
                    k <= deps.len(),
                    j < n,
                    n == g.len(),
                    deps@ == g[j as int].deps@,
                    self.queue@ == old(self).queue@,
                    self.head == old(self).head,
                    self.enqueued@ == old(self).enqueued@,
                    self.sent@ == after,
                    self.in_degree@.len() == n,
                    pending(deps@, before) == pending(deps@, after) + occurrences(deps@, v),
                    self.in_degree@[j as int] + occurrences(deps@.take(k as int), v) == pending(deps@, before),
                    forall|i: int| 0 <= i < j ==> #[trigger] self.in_degree@[i] == pending(g[i].deps@, after),
                    forall|i: int| j < i < n ==> #[trigger] self.in_degree@[i] == pending(g[i].deps@, before),
                decreases deps.len() - k,
            {
                proof {
                    lemma_occurrences_step(deps@, v, k as int);
                }
                if deps[k] == v {
                    let left: usize = self.in_degree[j];
                    self.in_degree.set(j, left - 1);
                }
                k += 1;
            }
            proof {
                assert(deps@.take(deps@.len() as int) =~= deps@);
            }
            j += 1;
        }
    }

    /// The state before anything is sent: the queue holds the nodes without
    /// prerequisites, in ascending index order.
    pub fn new(graph: &CommandGraph) -> (st: KahnState)
        ensures
            st.wf(graph@),
            st.sent_order() == Seq::<usize>::empty(),
    {
        let n: usize = graph.len();
        let mut in_degree: Vec<usize> = Vec::new();
        let mut i: usize = 0;
        while i < n
            invariant
                i <= n,
                n == graph@.len(),
                in_degree@.len() == i,
                forall|j: int| 0 <= j < i ==> #[trigger] in_degree@[j] == graph@[j].deps@.len(),
            decreases n - i,
        {
            in_degree.push(graph.node(i).deps.len());
            i += 1;
        }
        let mut st = KahnState { in_degree, queue: Vec::new(), head: 0, enqueued: cleared_flags(n), sent: cleared_flags(n) };
        proof {
            assert(st.queue@.take(0) =~= Seq::<usize>::empty());
            assert(st.queue@ =~= Seq::<usize>::empty());
            assert forall|j: int| 0 <= j < graph@.len() implies #[trigger] st.in_degree@[j] == pending(
                graph@[j].deps@,
                st.sent@,
            ) by {
                lemma_pending_fresh(graph@[j].deps@, st.sent@);
            }
        }
        st.scan(graph);
        proof {
            assert(st.queue@.take(0) =~= Seq::<usize>::empty());
        }
        st
    }

    /// The node to send next, or `None` when the queue has run empty.
    pub fn front(&self, graph: &CommandGraph) -> (r: Option<usize>)
        requires
            self.wf(graph@),
        ensures
            match r {
                Some(v) => {
                    &&& self.sent_order().len() < kahn_order(graph@).len()
                    &&& v == kahn_order(graph@)[self.sent_order().len() as int]
                    &&& v < graph@.len()
                },
                None => self.sent_order() == kahn_order(graph@),
            },
    {
        proof {
            lemma_from_extends(graph@, self.queue@, self.head as int);
        }
        if self.head < self.queue.len() {
            let v: usize = self.queue[self.head];
            proof {
                let full = kahn_order(graph@);
                assert(full.take(self.queue@.len() as int)[self.head as int] == full[self.head as int]);
                assert(placed_after_deps(graph@, self.queue@, self.head as int));
            }
            Some(v)
        } else {
            proof {
                assert(self.queue@.take(self.head as int) =~= self.queue@);
            }
            None
        }
    }

    /// Marks the node at the front as sent and queues the nodes that became
    /// ready by it.
    pub fn commit(&mut self, graph: &CommandGraph)
        requires
            old(self).wf(graph@),
            old(self).sent_order().len() < kahn_order(graph@).len(),
        ensures
            final(self).wf(graph@),
            final(self).sent_order() == old(self).sent_order().push(
                kahn_order(graph@)[old(self).sent_order().len() as int],
            ),
    {
        let ghost g = graph@;
        let ghost q = self.queue@;
        let ghost h = self.head as int;
        proof {
            lemma_from_extends(g, q, h);
            lemma_valid_count(g, q);
            if h >= q.len() {
                assert(q.take(h) =~= q);
            }
            assert(h < q.len());
            assert(placed_after_deps(g, q, h));
            assert(kahn_order(g).take(q.len() as int)[h] == kahn_order(g)[h]);
        }
        let v: usize = self.queue[self.head];
        let ghost sent0 = self.sent@;
        proof {
            if self.sent@[v as int] {
                let t0 = q.take(h);
                let p = choose|p: int| 0 <= p < t0.len() && t0[p] == v;
                assert(q[p] == q[h]);
            }
        }
        self.sent.set(v, true);
        self.head = self.head + 1;
        self.release(graph, v, Ghost(sent0));
        proof {
            assert(q.take(h + 1) =~= q.take(h).push(v));
            assert forall|j: int| 0 <= j < g.len() implies (#[trigger] self.sent@[j] <==> q.take(h + 1).contains(
                j as usize,
            )) by {
                if j == v {
                    assert(q.take(h + 1)[h] == v);
                } else if q.take(h + 1).contains(j as usize) {
                    let t1 = q.take(h + 1);
                    let p = choose|p: int| 0 <= p < t1.len() && t1[p] == j as usize;
                    assert(q.take(h)[p] == j as usize);
                } else if q.take(h).contains(j as usize) {
                    let t0 = q.take(h);
                    let p = choose|p: int| 0 <= p < t0.len() && t0[p] == j as usize;
                    assert(q.take(h + 1)[p] == j as usize);
                }
            }
        }
        self.scan(graph);
        proof {
            lemma_scan_extends(g, q, q.take(h + 1), g.len() as int);
            assert(self.queue@.take(h + 1) =~= self.queue@.take(q.len() as int).take(h + 1));
        }
    }

    /// The number of nodes sent so far.
    pub fn sent_len(&self, graph: &CommandGraph) -> (r: usize)
        requires
            self.wf(graph@),
        ensures
            r == self.sent_order().len(),
    {
        self.head
    }

    /// The nodes sent so far, in the order in which they were sent.
    pub fn into_order(self, graph: &CommandGraph) -> (r: Vec<usize>)
        requires
            self.wf(graph@),
        ensures
            r@ == self.sent_order(),
    {
        let ghost q = self.queue@;
        let mut out = self.queue;
        out.truncate(self.head);
        proof {
            assert(out@ =~= q.take(self.head as int));
        }
        out
    }
}

impl CommandGraph {
    /// The order in which Kahn's algorithm sends the nodes, computed without
    /// a device: `DependencyCycle` exactly when the graph has no total order.
    pub fn topo_order(&self) -> (r: Result<Vec<usize>, ExplorerError>)
        ensures
            r is Ok <==> has_total_order(self@),
            match r {
                Ok(order) => order@ == kahn_order(self@) && is_total_order(self@, order@),
                Err(e) => e == ExplorerError::DependencyCycle,
            },
    {
        let mut st = KahnState::new(self);
        let mut next: Option<usize> = st.front(self);
        proof {
            st.lemma_progress(self@);
        }
        while next.is_some()
            invariant
                st.wf(self@),
                st.sent_order().len() <= self@.len(),
                match next {
                    Some(v) => st.sent_order().len() < kahn_order(self@).len(),
                    None => st.sent_order() == kahn_order(self@),
                },
            decreases self@.len() - st.sent_order().len(),
        {
            st.commit(self);
            next = st.front(self);
            proof {
                st.lemma_progress(self@);
            }
        }
        proof {
            lemma_kahn_order_sound(self@);
        }
        if st.sent_len(self) == self.len() {
            Ok(st.into_order(self))
        } else {
            Err(ExplorerError::DependencyCycle)
        }
    }

    /// Checks that every prerequisite index is in range and that the
    /// dependency relation is acyclic, which is to say that the graph has a
    /// total order.
    pub fn validate(&self) -> (r: Result<(), ExplorerError>)
        ensures
            r is Ok <==> has_total_order(self@),
            r is Err ==> r == Err::<(), ExplorerError>(ExplorerError::DependencyCycle),
    {
        match self.topo_order() {
            Ok(_) => Ok(()),
            Err(e) => Err(e),
        }
    }
}

} // verus!
