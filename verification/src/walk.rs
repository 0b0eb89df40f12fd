//! The index-order walk: what the search does next, as a function of what it
//! did so far and of the answers that the transport and the probe gave.

use vstd::prelude::*;
use crate::error::TransportError;
use crate::graph::{CommandNode, can_follow};
use crate::hash::sequence_hash;
use crate::policy::{Dedup, SearchPolicy, VerificationPolicy, anchors_ok_at};
use crate::trace::{SearchEvent, memo_after};

verus! {

/// What a search is set up with.
pub struct Setup {
    /// The policy of the engine.
    pub policy: SearchPolicy,
    /// Whether the engine has a probe.
    pub probing: bool,
    /// The longest command that the transport takes.
    pub limit: nat,
    /// The number of hashes that are remembered at most.
    pub memo_limit: nat,
}

impl Setup {
    /// The probe is consulted after every command.
    pub open spec fn each(&self) -> bool {
        self.policy.verification == VerificationPolicy::PerNode && self.probing
    }

    /// The probe is consulted on every complete order.
    pub open spec fn end(&self) -> bool {
        self.policy.verification == VerificationPolicy::EndOfSequence && self.probing
    }

    /// Complete orders that failed are remembered by their hash.
    pub open spec fn keeps(&self) -> bool {
        self.policy.dedup == Dedup::SequenceHash
    }
}

/// Where the walk stands.
pub enum Cursor {
    /// After the nodes of `begun` were committed, the node `next` is the
    /// next to be considered.
    Scanning { begun: Seq<usize>, next: nat },
    /// The last node of `begun` was just taken and the probe is due.
    Probing { begun: Seq<usize> },
    /// The walk has ended, with the order that it found or with none.
    Done { found: Option<Seq<usize>> },
}

/// Node `c` is tried after `begun`: it may follow `begun` and the anchors
/// let it stand there.
pub open spec fn usable(g: Seq<CommandNode>, setup: Setup, begun: Seq<usize>, c: nat) -> bool {
    &&& can_follow(g, begun, c as usize)
    &&& anchors_ok_at(setup.policy, g.len(), begun.len() as int, c as usize)
}

/// Where the walk goes when everything after `begun` is exhausted: back by
/// one node, on to the node after it; from the empty sequence, to the end.
pub open spec fn retreat(begun: Seq<usize>) -> Cursor {
    if begun.len() == 0 {
        Cursor::Done { found: None }
    } else {
        Cursor::Scanning { begun: begun.drop_last(), next: (begun.last() + 1) as nat }
    }
}

/// The number of committed nodes, by which `settle` descends.
pub open spec fn depth_of(cur: Cursor) -> nat {
    match cur {
        Cursor::Scanning { begun, next } => begun.len(),
        _ => 0,
    }
}

/// The number of nodes left to consider, by which `settle` descends.
pub open spec fn room_of(g: Seq<CommandNode>, cur: Cursor) -> nat {
    match cur {
        Cursor::Scanning { begun, next } => if next < g.len() {
            (g.len() - next) as nat
        } else {
            0
        },
        _ => 0,
    }
}

/// The place at which the walk acts next: nodes that are not tried are
/// passed over in index order, and where none is left after `begun` the
/// walk retreats. The result is a complete order to decide on, a node to
/// try, a probe that is due, or the end.
pub open spec fn settle(g: Seq<CommandNode>, setup: Setup, cur: Cursor) -> Cursor
    decreases depth_of(cur), room_of(g, cur),
{
    match cur {
        Cursor::Scanning { begun, next } => if begun.len() >= g.len() {
            cur
        } else if next >= g.len() {
            if begun.len() == 0 {
                Cursor::Done { found: None }
            } else {
                settle(g, setup, retreat(begun))
            }
        } else if usable(g, setup, begun, next) {
            cur
        } else {
            settle(g, setup, Cursor::Scanning { begun, next: next + 1 })
        },
        _ => cur,
    }
}

/// The answer from outside that an event carries: whether the transport
/// took the command, or whether the probe passed.
pub open spec fn answer_of(ev: SearchEvent) -> bool {
    match ev {
        SearchEvent::Tried { prefix, node, failure } => failure is None,
        SearchEvent::Probed { sequence, passed } => passed,
        SearchEvent::Checked { sequence, passed } => passed,
        _ => true,
    }
}

/// The event of the walk at the settled place `cur`, given the answer from
/// outside:
/// - on a complete order: it is accepted where no final check is made,
///   passed over where its hash is remembered, and checked otherwise;
/// - on a node to try: it fails for its length, without a word to the
///   transport, where it is longer than the limit, and otherwise is taken or
///   rejected as the answer says;
/// - where the probe is due: the check of the committed sequence.
pub open spec fn expected(g: Seq<CommandNode>, setup: Setup, memo: Seq<u64>, cur: Cursor, answer: bool) -> SearchEvent {
    match cur {
        Cursor::Scanning { begun, next } => if begun.len() >= g.len() {
            if !setup.end() {
                SearchEvent::Accepted { sequence: begun }
            } else if setup.keeps() && memo.contains(sequence_hash(begun) as u64) {
                SearchEvent::Skipped { sequence: begun }
            } else {
                SearchEvent::Checked { sequence: begun, passed: answer }
            }
        } else {
            SearchEvent::Tried {
                prefix: begun,
                node: next as usize,
                failure: if g[next as int].bytes@.len() > setup.limit {
                    Some(TransportError::BufferOverflow)
                } else if answer {
                    None
                } else {
                    Some(TransportError::ExecutionFailed)
                },
            }
        },
        Cursor::Probing { begun } => SearchEvent::Probed { sequence: begun, passed: answer },
        Cursor::Done { found } => SearchEvent::Accepted { sequence: Seq::<usize>::empty() },
    }
}

/// Where the walk stands after an event, before it settles:
/// - a node that failed is followed by the next node;
/// - a node that was taken is committed, and the probe is due where checks
///   are made after each node;
/// - a check after a node that passed leaves the node committed, one that
///   failed makes the walk retreat;
/// - a complete order that was accepted, or checked and passed, ends the
///   walk; one that was passed over, or checked and failed, makes it retreat.
pub open spec fn advance(setup: Setup, ev: SearchEvent) -> Cursor {
    match ev {
        SearchEvent::Tried { prefix, node, failure } => if failure is Some {
            Cursor::Scanning { begun: prefix, next: (node + 1) as nat }
        } else if setup.each() {
            Cursor::Probing { begun: prefix.push(node) }
        } else {
            Cursor::Scanning { begun: prefix.push(node), next: 0 }
        },
        SearchEvent::Probed { sequence, passed } => if passed {
            Cursor::Scanning { begun: sequence, next: 0 }
        } else {
            retreat(sequence)
        },
        SearchEvent::Checked { sequence, passed } => if passed {
            Cursor::Done { found: Some(sequence) }
        } else {
            retreat(sequence)
        },
        SearchEvent::Skipped { sequence } => retreat(sequence),
        SearchEvent::Accepted { sequence } => Cursor::Done { found: Some(sequence) },
    }
}

/// The place at which the walk stands after the events of `trace`, where
/// `trace` is a walk from the beginning: each event is the one that the walk
/// makes at its place, given the answer that the event carries and the
/// hashes remembered by then. `None` where `trace` is no such walk.
pub open spec fn replay(g: Seq<CommandNode>, setup: Setup, memo: Seq<u64>, trace: Seq<SearchEvent>) -> Option<Cursor>
    decreases trace.len(),
{
    if trace.len() == 0 {
        Some(settle(g, setup, Cursor::Scanning { begun: Seq::<usize>::empty(), next: 0 }))
    } else {
        match replay(g, setup, memo, trace.drop_last()) {
            Some(cur) => if !(cur is Done) && trace.last() == expected(
                g,
                setup,
                memo_after(memo, setup.memo_limit, setup.keeps(), trace.drop_last()),
                cur,
                answer_of(trace.last()),
            ) {
                Some(settle(g, setup, advance(setup, trace.last())))
            } else {
                None
            },
            None => None,
        }
    }
}

/// The walk after one more event that is the walk's own at its place.
pub proof fn lemma_replay_push(g: Seq<CommandNode>, setup: Setup, memo: Seq<u64>, t: Seq<SearchEvent>, cur: Cursor, ev: SearchEvent)
    requires
        replay(g, setup, memo, t) == Some(cur),
        !(cur is Done),
        ev == expected(g, setup, memo_after(memo, setup.memo_limit, setup.keeps(), t), cur, answer_of(ev)),
    ensures
        replay(g, setup, memo, t.push(ev)) == Some(settle(g, setup, advance(setup, ev))),
{
    assert(t.push(ev).drop_last() =~= t);
}

/// The answers decide the walk: two walks of the same length under the
/// same setup whose events carry the same answers are the same.
pub proof fn lemma_walk_decided(g: Seq<CommandNode>, setup: Setup, memo: Seq<u64>, a: Seq<SearchEvent>, b: Seq<SearchEvent>)
    requires
        replay(g, setup, memo, a) is Some,
        replay(g, setup, memo, b) is Some,
        a.len() == b.len(),
        forall|i: int| 0 <= i < a.len() ==> answer_of(#[trigger] a[i]) == answer_of(b[i]),
    ensures
        a == b,
    decreases a.len(),
{
    if a.len() == 0 {
        assert(a =~= b);
    } else {
        let a0 = a.drop_last();
        let b0 = b.drop_last();
        assert forall|i: int| 0 <= i < a0.len() implies answer_of(#[trigger] a0[i]) == answer_of(b0[i]) by {
            assert(a0[i] == a[i]);
            assert(b0[i] == b[i]);
        }
        lemma_walk_decided(g, setup, memo, a0, b0);
        assert(answer_of(a[a.len() - 1]) == answer_of(b[a.len() - 1]));
        assert(a.last() == b.last());
        assert(a =~= a0.push(a.last()));
        assert(b =~= b0.push(b.last()));
    }
}

/// A node that is not tried is passed over.
pub proof fn lemma_settle_skip(g: Seq<CommandNode>, setup: Setup, begun: Seq<usize>, c: nat)
    requires
        begun.len() < g.len(),
        c < g.len(),
        !usable(g, setup, begun, c),
    ensures
        settle(g, setup, Cursor::Scanning { begun, next: c }) == settle(g, setup, Cursor::Scanning { begun, next: c + 1 }),
{
}

/// Where no node is left after `begun`, the walk retreats.
pub proof fn lemma_settle_retreat(g: Seq<CommandNode>, setup: Setup, begun: Seq<usize>)
    requires
        begun.len() < g.len(),
    ensures
        settle(g, setup, Cursor::Scanning { begun, next: g.len() }) == settle(g, setup, retreat(begun)),
{
}

/// The walk retreats from `begun.push(c)` to the node after `c`.
pub proof fn lemma_retreat_push(begun: Seq<usize>, c: usize)
    ensures
        retreat(begun.push(c)) == (Cursor::Scanning { begun, next: (c + 1) as nat }),
{
    assert(begun.push(c).drop_last() =~= begun);
}

} // verus!
