//! The bookkeeping of one search attempt: which nodes have been sent, and in
//! which order.

use vstd::prelude::*;
use crate::error::TransportError;
use crate::graph::{
    CommandGraph, CommandNode, is_valid_sequence, can_follow, occurs, placed_after_deps,
    lemma_occurs_contains, lemma_extend_valid, lemma_valid_prefix,
};
use crate::transport::{Attempt, Transport, TransportExecutor, framed};

verus! {

/// The sent flags and the sequence committed so far.
pub struct SearchState {
    sent: Vec<bool>,
    sequence: Vec<usize>,
}

impl SearchState {
    /// One flag per node: whether it has been sent.
    pub closed spec fn flags(&self) -> Seq<bool> {
        self.sent@
    }

    /// The nodes committed so far, in the order in which they were sent.
    pub closed spec fn order(&self) -> Seq<usize> {
        self.sequence@
    }

    /// The state belongs to a search over `g`: the committed nodes are a
    /// valid sequence, and exactly they are flagged.
    pub open spec fn wf(&self, g: Seq<CommandNode>) -> bool {
        &&& self.flags().len() == g.len()
        &&& is_valid_sequence(g, self.order())
        &&& forall|j: int| 0 <= j < g.len() ==> (#[trigger] self.flags()[j] <==> occurs(self.order(), j))
    }

    /// The state before anything is sent.
    pub fn new(graph: &CommandGraph) -> (r: SearchState)
        ensures
            r.wf(graph@),
            r.order() == Seq::<usize>::empty(),
    {
        let n: usize = graph.len();
        let mut sent: Vec<bool> = Vec::new();
        let mut i: usize = 0;
        while i < n
            invariant
                i <= n,
                sent@.len() == i,
                forall|k: int| 0 <= k < i ==> !sent@[k],
            decreases n - i,
        {
            sent.push(false);
            i += 1;
        }
        SearchState { sent, sequence: Vec::new() }
    }

    /// Whether node `node` has been sent.
    pub fn is_sent(&self, node: usize) -> (r: bool)
        requires
            node < self.flags().len(),
        ensures
            r == self.flags()[node as int],
    {
        self.sent[node]
    }

    /// The number of nodes committed so far.
    pub fn len(&self) -> (r: usize)
        ensures
            r == self.order().len(),
    {
        self.sequence.len()
    }

    /// The nodes committed so far, in the order in which they were sent.
    pub fn sequence(&self) -> (r: &Vec<usize>)
        ensures
            r@ == self.order(),
    {
        &self.sequence
    }

    /// Gives the committed sequence away.
    pub fn into_sequence(self) -> (r: Vec<usize>)
        ensures
            r@ == self.order(),
    {
        self.sequence
    }

    /// Whether `node` may be sent next: it is unsent and all its
    /// prerequisites are sent.
    pub fn eligible(&self, graph: &CommandGraph, node: usize) -> (r: bool)
        requires
            self.wf(graph@),
            node < graph@.len(),
        ensures
            r == can_follow(graph@, self.order(), node),
    {
        let ghost g = graph@;
        let ghost s = self.order();
        proof {
            lemma_occurs_contains(s, node);
        }
        if self.sent[node] {
            return false;
        }
        let met: bool = graph.deps_sent(node, &self.sent);
        proof {
            if met {
                assert forall|k: int| 0 <= k < g[node as int].deps@.len() implies s.contains(
                    #[trigger] g[node as int].deps@[k],
                ) by {
                    let d = g[node as int].deps@[k];
                    assert(self.flags()[d as int]);
                    lemma_occurs_contains(s, d);
                }
            } else {
                let k = choose|k: int| 0 <= k < g[node as int].deps@.len() && !({
                    let d = #[trigger] g[node as int].deps@[k];
                    d < self.sent@.len() && self.sent@[d as int]
                });
                let d = g[node as int].deps@[k];
                if s.contains(d) {
                    let i = choose|i: int| 0 <= i < s.len() && s[i] == d;
                    assert(placed_after_deps(g, s, i));
                    lemma_occurs_contains(s, d);
                    assert(self.flags()[d as int]);
                }
            }
        }
        met
    }

    /// Commits a node that may be sent next.
    pub fn push(&mut self, graph: &CommandGraph, node: usize)
        requires
            old(self).wf(graph@),
            can_follow(graph@, old(self).order(), node),
        ensures
            final(self).wf(graph@),
            final(self).order() == old(self).order().push(node),
            final(self).flags() == old(self).flags().update(node as int, true),
    {
        let ghost g = graph@;
        let ghost s = self.order();
        self.sent.set(node, true);
        self.sequence.push(node);
        proof {
            let t = s.push(node);
            lemma_extend_valid(g, s, node);
            assert forall|j: int| 0 <= j < g.len() implies (#[trigger] self.flags()[j] <==> occurs(t, j)) by {
                if j == node {
                    assert(t[s.len() as int] == j);
                } else if occurs(t, j) {
                    let p = choose|p: int| 0 <= p < t.len() && #[trigger] t[p] == j;
                    assert(s[p] == j);
                } else if occurs(s, j) {
                    let p = choose|p: int| 0 <= p < s.len() && #[trigger] s[p] == j;
                    assert(t[p] == j);
                }
            }
        }
    }

    /// Takes the last committed node back.
    pub fn pop(&mut self, graph: &CommandGraph)
        requires
            old(self).wf(graph@),
            old(self).order().len() > 0,
        ensures
            final(self).wf(graph@),
            final(self).order() == old(self).order().drop_last(),
            final(self).flags() == old(self).flags().update(old(self).order().last() as int, false),
    {
        let ghost g = graph@;
        let ghost s = self.order();
        proof {
            assert(placed_after_deps(g, s, s.len() - 1));
        }
        let node: usize = self.sequence[self.sequence.len() - 1];
        self.sequence.pop();
        self.sent.set(node, false);
        proof {
            let t = s.drop_last();
            assert(t =~= s.take(s.len() - 1));
            lemma_valid_prefix(g, s, s.len() - 1);
            assert forall|j: int| 0 <= j < g.len() implies (#[trigger] self.flags()[j] <==> occurs(t, j)) by {
                if j == node {
                    if occurs(t, j) {
                        let p = choose|p: int| 0 <= p < t.len() && #[trigger] t[p] == j;
                        assert(s[p] == s[s.len() - 1]);
                    }
                } else if occurs(t, j) {
                    let p = choose|p: int| 0 <= p < t.len() && #[trigger] t[p] == j;
                    assert(s[p] == j);
                } else if occurs(s, j) {
                    let p = choose|p: int| 0 <= p < s.len() && #[trigger] s[p] == j;
                    assert(t[p] == j);
                }
            }
        }
    }

    /// Sends `node` and, where the transport accepted it, commits it.
    ///
    /// On any error the state is what it was: the node is not marked sent
    /// and the sequence is not extended.
    pub fn try_commit<T: Transport>(
        &mut self,
        graph: &CommandGraph,
        exec: &mut TransportExecutor<T>,
        node: usize,
    ) -> (r: Result<(), TransportError>)
        requires
            old(self).wf(graph@),
            can_follow(graph@, old(self).order(), node),
        ensures
            final(self).wf(graph@),
            final(exec).limit() == old(exec).limit(),
            final(exec).prefix_byte() == old(exec).prefix_byte(),
            final(exec).device() == old(exec).device(),
            final(exec).readings() == old(exec).readings(),
            graph@[node as int].bytes@.len() > old(exec).limit() <==> r == Err::<(), TransportError>(TransportError::BufferOverflow),
            graph@[node as int].bytes@.len() > old(exec).limit() ==> *final(exec) == *old(exec),
            graph@[node as int].bytes@.len() <= old(exec).limit() ==> {
                &&& r is Ok || r == Err::<(), TransportError>(TransportError::ExecutionFailed)
                &&& final(exec).journal() == old(exec).journal().push(
                    (Attempt {
                        address: old(exec).device(),
                        frame: framed(old(exec).prefix_byte(), graph@[node as int].bytes@),
                        accepted: r is Ok,
                    }),
                )
            },
            r is Ok ==> final(self).order() == old(self).order().push(node) && final(self).flags() == old(
                self,
            ).flags().update(node as int, true),
            r is Err ==> *final(self) == *old(self),
    {
        let r = exec.execute(graph.node(node).bytes.as_slice());
        if r.is_ok() {
            self.push(graph, node);
        }
        r
    }
}

} // verus!
