//! The backtracking engine: a depth-first search over the total orders of a
//! graph, in index order, that commits a node only when the transport took
//! it and accepts an order only when the probe did.

use vstd::prelude::*;
use crate::error::ExplorerError;
use crate::graph::{
    CommandGraph, CommandNode, is_chain, identity_order, lemma_chain_unique_order, is_total_order,
    placed_after_deps, membership, lemma_full_valid_is_total, lemma_valid_count,
    lemma_occurs_contains,
};
use crate::hash::{hash_sequence, sequence_hash};
use crate::log::{BoundedLog, LogLevel, Outcome, failure_word, verdict_word};
use crate::policy::{
    Dedup, SearchPolicy, VerificationPolicy, anchors_ok_at, candidate, precedes, respects_anchors,
    lemma_candidate_step, lemma_no_candidate,
};
use crate::probe::{VerificationOutcome, VerificationProbe, reading_verdict};
use crate::state::SearchState;
use crate::trace::{
    SearchEvent, checks_read, extends, factorial, faithful, faithful_event, first_unrefuted,
    memo_after, refuted, refutes, supported, trail_of, unsent_below, verdicts,
    visits, writes_of, lemma_budget_step, lemma_candidate_done, lemma_checks_read_keep,
    lemma_checks_read_more, lemma_extends_contains, lemma_first_step, lemma_memo_push,
    lemma_refuted_by_last, lemma_refuted_mono, lemma_rejected_node_blocks, lemma_supported_mono,
    lemma_supported_push, lemma_trail_push, lemma_unsent_mono, lemma_unsent_prefix,
    lemma_visits_push, lemma_writes_push, lemma_tries_push, tries, tries_bound,
    ascend, low, is_visit, lemma_ascend_step,
};
use crate::transport::{Attempt, Reading, Transport, TransportExecutor};
use crate::walk::{
    Cursor, Setup, replay, retreat, settle, lemma_replay_push, lemma_retreat_push,
    lemma_settle_retreat, lemma_settle_skip,
};

verus! {

/// The transport's configuration is the same in `a` and `b`.
pub open spec fn same_device<T: Transport>(a: TransportExecutor<T>, b: TransportExecutor<T>) -> bool {
    &&& a.limit() == b.limit()
    &&& a.prefix_byte() == b.prefix_byte()
    &&& a.device() == b.device()
}

/// The log's configuration is the same in `a` and `b`.
pub open spec fn same_log_setup(a: BoundedLog, b: BoundedLog) -> bool {
    &&& a.limit() == b.limit()
    &&& a.configured() == b.configured()
}

/// The depth-first search over the total orders of a graph.
pub struct BacktrackSearchEngine {
    policy: SearchPolicy,
    probe: Option<VerificationProbe>,
    tried: Vec<u64>,
    memo_capacity: usize,
    trace: Ghost<Seq<SearchEvent>>,
}

impl BacktrackSearchEngine {
    /// The policy that the engine was made with.
    pub closed spec fn policy(&self) -> SearchPolicy {
        self.policy
    }

    /// The signature of the probe, where the engine has one.
    pub closed spec fn probe_signature(&self) -> Option<Seq<u8>> {
        match self.probe {
            Some(p) => Some(p.signature()),
            None => None,
        }
    }

    /// The hashes of the complete orders that failed verification, oldest first.
    pub closed spec fn memo(&self) -> Seq<u64> {
        self.tried@
    }

    /// The number of hashes that are remembered at most.
    pub closed spec fn memo_limit(&self) -> nat {
        self.memo_capacity as nat
    }

    /// What the engine did during the latest search, step by step.
    pub closed spec fn events(&self) -> Seq<SearchEvent> {
        self.trace@
    }

    /// The probe is consulted after every command.
    pub open spec fn checks_each(&self) -> bool {
        self.policy().verification == VerificationPolicy::PerNode && self.probe_signature() is Some
    }

    /// The probe is consulted on every complete order.
    pub open spec fn checks_end(&self) -> bool {
        self.policy().verification == VerificationPolicy::EndOfSequence && self.probe_signature() is Some
    }

    /// Complete orders that failed are remembered by their hash.
    pub open spec fn dedups(&self) -> bool {
        self.policy().dedup == Dedup::SequenceHash
    }

    /// What a search of this engine is set up with, over a transport that
    /// takes commands of at most `limit` bytes.
    pub open spec fn setup(&self, limit: nat) -> Setup {
        Setup { policy: self.policy(), probing: self.probe_signature() is Some, limit, memo_limit: self.memo_limit() }
    }

    /// The events since the search began are those of the index-order walk
    /// from the beginning, given the answers that they carry, and the walk
    /// now stands where `cur` settles. `memo` holds the hashes remembered
    /// when the search began.
    pub open spec fn walked(&self, g: Seq<CommandNode>, limit: nat, memo: Seq<u64>, cur: Cursor) -> bool {
        replay(g, self.setup(limit), memo, self.events()) == Some(settle(g, self.setup(limit), cur))
    }

    /// The engine is `before` after some more steps: the same setup, with
    /// events and remembered hashes added at the end.
    pub open spec fn follows(&self, before: &Self) -> bool {
        &&& self.policy() == before.policy()
        &&& self.probe_signature() == before.probe_signature()
        &&& self.memo_limit() == before.memo_limit()
        &&& extends(before.events(), self.events())
        &&& extends(before.memo(), self.memo())
    }

    /// The engine, the transport and the log agree with the events since
    /// the search began: the remembered hashes are those that the events
    /// added to `memo`, the readings since `readings` are those of the
    /// checks, every event is faithful, and the journal and the log hold what
    /// the events put there after `journal` and `text`.
    pub open spec fn linked<T: Transport>(
        &self,
        exec: TransportExecutor<T>,
        log: BoundedLog,
        g: Seq<CommandNode>,
        journal: Seq<Attempt>,
        readings: Seq<Reading>,
        text: Seq<u8>,
        memo: Seq<u64>,
    ) -> bool {
        &&& log.wf()
        &&& self.memo() == memo_after(memo, self.memo_limit(), self.dedups(), self.events())
        &&& checks_read(self.probe_signature(), exec.device(), readings, exec.readings(), self.events())
        &&& faithful(g, exec.limit(), self.memo(), self.events())
        &&& exec.journal() == journal + writes_of(g, exec.device(), exec.prefix_byte(), self.events())
        &&& log.text() == trail_of(text, log.limit(), log.configured(), g, self.events())
    }

    /// The order `s` is accepted: it is a total order of `g` within the
    /// anchors, each of its nodes was taken by the transport after the nodes
    /// before it, and the probe passed it as the policy demands. `memo` is
    /// a state of the remembered hashes in which its hash did not occur.
    pub open spec fn accepted(&self, g: Seq<CommandNode>, s: Seq<usize>, memo: Seq<u64>) -> bool {
        &&& is_total_order(g, s)
        &&& respects_anchors(self.policy(), g.len(), s)
        &&& supported(self.events(), s, self.checks_each())
        &&& if self.checks_end() {
            &&& self.events().contains(SearchEvent::Checked { sequence: s, passed: true })
            &&& self.dedups() ==> !memo.contains(sequence_hash(s) as u64)
        } else {
            self.events().contains(SearchEvent::Accepted { sequence: s })
        }
    }

    /// An engine with the given policy and probe that remembers at most
    /// `memo_capacity` hashes.
    pub fn new(
        policy: SearchPolicy,
        probe: Option<VerificationProbe>,
        memo_capacity: usize,
    ) -> (r: BacktrackSearchEngine)
        ensures
            r.policy() == policy,
            r.probe_signature() == match probe {
                Some(p) => Some(p.signature()),
                None => None,
            },
            r.memo() == Seq::<u64>::empty(),
            r.memo_limit() == memo_capacity,
            r.events() == Seq::<SearchEvent>::empty(),
    {
        BacktrackSearchEngine { policy, probe, tried: Vec::new(), memo_capacity, trace: Ghost(Seq::empty()) }
    }

    /// The number of hashes that are remembered.
    pub fn memo_len(&self) -> (r: usize)
        ensures
            r == self.memo().len(),
    {
        self.tried.len()
    }

    /// Whether `h` is among the remembered hashes.
    pub fn remembered(&self, h: u64) -> (r: bool)
        ensures
            r == self.memo().contains(h),
    {
        let mut i: usize = 0;
        while i < self.tried.len()
            invariant
                i <= self.tried@.len(),
                forall|k: int| 0 <= k < i ==> self.tried@[k] != h,
            decreases self.tried@.len() - i,
        {
            if self.tried[i] == h {
                return true;
            }
            i += 1;
        }
        false
    }

    /// Whether the probe is consulted after every command.
    fn probes_each(&self) -> (r: bool)
        ensures
            r == self.checks_each(),
    {
        match self.policy.verification {
            VerificationPolicy::PerNode => self.probe.is_some(),
            _ => false,
        }
    }

    /// Whether the probe is consulted on every complete order.
    fn probes_end(&self) -> (r: bool)
        ensures
            r == self.checks_end(),
    {
        match self.policy.verification {
            VerificationPolicy::EndOfSequence => self.probe.is_some(),
            _ => false,
        }
    }

    /// Whether complete orders that failed are remembered.
    fn remembers(&self) -> (r: bool)
        ensures
            r == self.dedups(),
    {
        match self.policy.dedup {
            Dedup::SequenceHash => true,
            Dedup::Off => false,
        }
    }

    /// Whether the anchors let node `c` stand at position `p` of `n`.
    fn anchor_allows(&self, c: usize, p: usize, n: usize) -> (r: bool)
        requires
            p < n,
        ensures
            r == anchors_ok_at(self.policy(), n as nat, p as int, c),
    {
        let first_ok: bool = match self.policy.first {
            Some(a) => p != 0 || c == a,
            None => true,
        };
        let last_ok: bool = match self.policy.last {
            Some(z) => (c == z) == (p + 1 == n),
            None => true,
        };
        first_ok && last_ok
    }

    /// Consults the probe: whether the device reports the expected state.
    fn consult<T: Transport>(&self, exec: &mut TransportExecutor<T>) -> (passed: bool)
        requires
            self.probe_signature() is Some,
        ensures
            same_device(*old(exec), *final(exec)),
            final(exec).journal() == old(exec).journal(),
            final(exec).readings().len() == old(exec).readings().len() + 1,
            final(exec).readings().drop_last() == old(exec).readings(),
            final(exec).readings().last().address == old(exec).device(),
            final(exec).readings().last().len == self.probe_signature()->Some_0.len(),
            passed == (reading_verdict(self.probe_signature()->Some_0, final(exec).readings().last())
                == VerificationOutcome::Pass),
    {
        match &self.probe {
            Some(p) => match p.check(exec) {
                VerificationOutcome::Pass => true,
                VerificationOutcome::Fail => false,
            },
            None => false,
        }
    }

    /// Decides on the complete order that `state` holds.
    fn conclude<T: Transport>(
        &mut self,
        graph: &CommandGraph,
        exec: &mut TransportExecutor<T>,
        log: &mut BoundedLog,
        state: &SearchState,
        Ghost(journal): Ghost<Seq<Attempt>>,
        Ghost(readings): Ghost<Seq<Reading>>,
        Ghost(text): Ghost<Seq<u8>>,
        Ghost(remembered): Ghost<Seq<u64>>,
    ) -> (found: bool)
        requires
            state.order().len() == graph@.len(),
            graph@.len() <= usize::MAX,
            old(self).linked(*old(exec), *old(log), graph@, journal, readings, text, remembered),
            old(self).walked(graph@, old(exec).limit(), remembered, (Cursor::Scanning { begun: state.order(), next: 0 })),
        ensures
            found ==> final(self).walked(
                graph@,
                old(exec).limit(),
                remembered,
                (Cursor::Done { found: Some(state.order()) }),
            ),
            !found ==> final(self).walked(graph@, old(exec).limit(), remembered, retreat(state.order())),
            final(self).follows(old(self)),
            same_device(*old(exec), *final(exec)),
            same_log_setup(*old(log), *final(log)),
            final(self).linked(*final(exec), *final(log), graph@, journal, readings, text, remembered),
            found ==> if final(self).checks_end() {
                &&& final(self).events().contains(SearchEvent::Checked { sequence: state.order(), passed: true })
                &&& final(self).dedups() ==> !old(self).memo().contains(sequence_hash(state.order()) as u64)
            } else {
                final(self).events().contains(SearchEvent::Accepted { sequence: state.order() })
            },
            !found ==> refuted(final(self).events(), state.order()),
            visits(final(self).events()) == visits(old(self).events()) + 1,
            tries(final(self).events()) == tries(old(self).events()),
            ascend(final(self).events(), old(self).events().len() as int, state.order()),
    {
        let ghost g = graph@;
        let ghost s = state.order();
        let ghost tr0 = self.events();
        let ghost su = self.setup(exec.limit());
        let ghost here = Cursor::Scanning { begun: s, next: 0 };
        proof {
            assert(s.take(s.len() as int) =~= s);
            assert(settle(g, su, here) == here);
            assert(memo_after(remembered, su.memo_limit, su.keeps(), tr0) == self.memo());
        }
        if !self.probes_end() {
            proof {
                let ev = SearchEvent::Accepted { sequence: s };
                lemma_replay_push(g, su, remembered, tr0, here, ev);
                lemma_checks_read_keep(self.probe_signature(), exec.device(), readings, exec.readings(), tr0, ev);
                lemma_visits_push(tr0, ev);
                lemma_tries_push(tr0, ev);
                lemma_memo_push(remembered, self.memo_limit(), self.dedups(), tr0, ev);
                lemma_writes_push(g, exec.device(), exec.prefix_byte(), tr0, ev);
                lemma_trail_push(text, log.limit(), log.configured(), g, tr0, ev);
                self.trace@ = self.trace@.push(ev);
                assert(self.events()[tr0.len() as int] == ev);
                assert(exec.journal() =~= journal + writes_of(g, exec.device(), exec.prefix_byte(), self.events()));
            }
            return true;
        }
        let h: u64 = hash_sequence(state.sequence());
        let keeps: bool = self.remembers();
        if keeps && self.remembered(h) {
            proof {
                let ev = SearchEvent::Skipped { sequence: s };
                lemma_replay_push(g, su, remembered, tr0, here, ev);
                lemma_checks_read_keep(self.probe_signature(), exec.device(), readings, exec.readings(), tr0, ev);
                lemma_visits_push(tr0, ev);
                lemma_tries_push(tr0, ev);
                lemma_memo_push(remembered, self.memo_limit(), self.dedups(), tr0, ev);
                lemma_writes_push(g, exec.device(), exec.prefix_byte(), tr0, ev);
                lemma_trail_push(text, log.limit(), log.configured(), g, tr0, ev);
                self.trace@ = self.trace@.push(ev);
                lemma_refuted_by_last(tr0, ev, s);
                assert(exec.journal() =~= journal + writes_of(g, exec.device(), exec.prefix_byte(), self.events()));
            }
            return false;
        }
        let ghost seen = exec.readings();
        let passed: bool = self.consult(exec);
        let empty: Vec<u8> = Vec::new();
        log.record(LogLevel::Normal, state.len(), empty.as_slice(), verdict_word(passed));
        proof {
            let ev = SearchEvent::Checked { sequence: s, passed };
            lemma_replay_push(g, su, remembered, tr0, here, ev);
            lemma_checks_read_more(
                self.probe_signature()->Some_0,
                exec.device(),
                readings,
                seen,
                exec.readings(),
                tr0,
                ev,
                passed,
            );
            lemma_visits_push(tr0, ev);
            lemma_tries_push(tr0, ev);
            lemma_memo_push(remembered, self.memo_limit(), self.dedups(), tr0, ev);
            lemma_writes_push(g, exec.device(), exec.prefix_byte(), tr0, ev);
            lemma_trail_push(text, log.limit(), log.configured(), g, tr0, ev);
            self.trace@ = self.trace@.push(ev);
            assert(self.events()[tr0.len() as int] == ev);
            assert(exec.journal() =~= journal + writes_of(g, exec.device(), exec.prefix_byte(), self.events()));
            assert(empty@ =~= Seq::<u8>::empty());
            if !passed {
                lemma_refuted_by_last(tr0, ev, s);
            }
        }
        if !passed && keeps && self.tried.len() < self.memo_capacity {
            let ghost memo0 = self.memo();
            self.tried.push(h);
            proof {
                assert(self.memo() == memo_after(remembered, self.memo_limit(), self.dedups(), self.events()));
                assert forall|i: int| 0 <= i < self.events().len() implies faithful_event(
                    g,
                    exec.limit(),
                    self.memo(),
                    #[trigger] self.events()[i],
                ) by {
                    assert(faithful_event(g, exec.limit(), memo0, self.events()[i]));
                    if self.events()[i] is Skipped {
                        let skipped = self.events()[i]->Skipped_sequence;
                        lemma_extends_contains(memo0, self.memo(), sequence_hash(skipped) as u64);
                    }
                }
            }
        }
        passed
    }

    /// Tries, in index order, every node that may follow the committed
    /// sequence, and searches on below each one that the transport took.
    fn descend<T: Transport>(
        &mut self,
        graph: &CommandGraph,
        exec: &mut TransportExecutor<T>,
        log: &mut BoundedLog,
        state: &mut SearchState,
        Ghost(journal): Ghost<Seq<Attempt>>,
        Ghost(readings): Ghost<Seq<Reading>>,
        Ghost(text): Ghost<Seq<u8>>,
        Ghost(remembered): Ghost<Seq<u64>>,
    ) -> (found: bool)
        requires
            old(state).wf(graph@),
            respects_anchors(old(self).policy(), graph@.len(), old(state).order()),
            supported(old(self).events(), old(state).order(), old(self).checks_each()),
            old(self).linked(*old(exec), *old(log), graph@, journal, readings, text, remembered),
            old(self).walked(graph@, old(exec).limit(), remembered, (Cursor::Scanning { begun: old(state).order(), next: 0 })),
        ensures
            found ==> final(self).walked(
                graph@,
                old(exec).limit(),
                remembered,
                (Cursor::Done { found: Some(final(state).order()) }),
            ),
            !found ==> final(self).walked(graph@, old(exec).limit(), remembered, retreat(old(state).order())),
            final(self).follows(old(self)),
            same_device(*old(exec), *final(exec)),
            same_log_setup(*old(log), *final(log)),
            final(self).linked(*final(exec), *final(log), graph@, journal, readings, text, remembered),
            final(state).wf(graph@),
            found ==> final(self).accepted(graph@, final(state).order(), old(self).memo()),
            found ==> old(state).order().len() <= final(state).order().len() && final(state).order().take(
                old(state).order().len() as int,
            ) == old(state).order(),
            found ==> first_unrefuted(graph@, old(self).policy(), final(self).events(), old(state).order(), final(state).order()),
            !found ==> {
                &&& final(state).order() == old(state).order()
                &&& final(state).flags() == old(state).flags()
                &&& forall|s: Seq<usize>| #[trigger]
                    candidate(graph@, old(self).policy(), old(state).order(), s) ==> refuted(final(self).events(), s)
            },
            old(state).order().len() <= graph@.len(),
            visits(final(self).events()) <= visits(old(self).events()) + factorial(
                (graph@.len() - old(state).order().len()) as nat,
            ),
            tries(final(self).events()) <= tries(old(self).events()) + tries_bound(
                (graph@.len() - old(state).order().len()) as nat,
            ),
            ascend(final(self).events(), old(self).events().len() as int, old(state).order()),
        decreases graph@.len() - old(state).order().len(),
    {
        let ghost g = graph@;
        let ghost begun = state.order();
        let ghost flags0 = state.flags();
        let ghost pol = self.policy();
        let ghost each = self.checks_each();
        let ghost su = self.setup(exec.limit());
        let n: usize = graph.len();
        let d: usize = state.len();
        proof {
            lemma_valid_count(g, begun);
        }
        if d == n {
            let found = self.conclude(graph, exec, log, state, Ghost(journal), Ghost(readings), Ghost(text), Ghost(remembered));
            proof {
                if found {
                    lemma_full_valid_is_total(g, begun);
                    lemma_supported_mono(old(self).events(), self.events(), begun, each);
                    assert(begun.take(begun.len() as int) =~= begun);
                    assert forall|s: Seq<usize>| #[trigger] candidate(g, pol, begun, s) && precedes(s, begun) implies refuted(
                        self.events(),
                        s,
                    ) by {
                        assert(s.take(begun.len() as int) =~= s);
                    }
                } else {
                    assert forall|s: Seq<usize>| #[trigger] candidate(g, pol, begun, s) implies refuted(self.events(), s) by {
                        assert(s.take(begun.len() as int) =~= s);
                    }
                }
            }
            return found;
        }
        let ghost below = factorial((n - d - 1) as nat);
        let ghost start = visits(self.events());
        let ghost per = 1 + tries_bound((n - d - 1) as nat);
        let ghost start_tries = tries(self.events());
        let ghost from = self.events().len() as int;
        proof {
            assert(flags0 =~= membership(g.len(), begun));
            lemma_unsent_prefix(flags0, n as int);
            assert(flags0.take(n as int) =~= flags0);
            assert(unsent_below(flags0, n as int) == n - d);
        }
        let mut c: usize = 0;
        while c < n
            invariant
                c <= n,
                n == g.len(),
                d == begun.len(),
                d < n,
                below == factorial((n - d - 1) as nat),
                start == visits(old(self).events()),
                unsent_below(flags0, n as int) == n - d,
                visits(self.events()) <= start + unsent_below(flags0, c as int) * below,
                per == 1 + tries_bound((n - d - 1) as nat),
                start_tries == tries(old(self).events()),
                tries(self.events()) <= start_tries + unsent_below(flags0, c as int) * per,
                from == old(self).events().len(),
                ascend(self.events(), from, begun),
                low(self.events(), from, d as int, c as int),
                g == graph@,
                begun == old(state).order(),
                flags0 == old(state).flags(),
                pol == old(self).policy(),
                each == old(self).checks_each(),
                su == old(self).setup(old(exec).limit()),
                self.walked(g, su.limit, remembered, (Cursor::Scanning { begun, next: c as nat })),
                self.follows(old(self)),
                same_device(*old(exec), *exec),
                same_log_setup(*old(log), *log),
                self.linked(*exec, *log, g, journal, readings, text, remembered),
                state.wf(g),
                state.order() == begun,
                state.flags() == flags0,
                respects_anchors(pol, g.len(), begun),
                supported(self.events(), begun, each),
                forall|s: Seq<usize>| #[trigger] candidate(g, pol, begun, s) && s[d as int] < c ==> refuted(self.events(), s),
            decreases n - c,
        {
            let ghost tr0 = self.events();
            let ghost memo0 = self.memo();
            proof {
                lemma_unsent_mono(flags0, c as int + 1, n as int);
                lemma_occurs_contains(begun, c);
            }
            let follows_state: bool = state.eligible(graph, c);
            let usable: bool = follows_state && self.anchor_allows(c, d, n);
            if usable {
                let node = graph.node(c);
                let r = exec.execute(node.bytes.as_slice());
                let ghost tried = SearchEvent::Tried {
                    prefix: begun,
                    node: c,
                    failure: match r {
                        Ok(_) => None,
                        Err(e) => Some(e),
                    },
                };
                proof {
                    let here = Cursor::Scanning { begun, next: c as nat };
                    assert(settle(g, su, here) == here);
                    assert(memo_after(remembered, su.memo_limit, su.keeps(), tr0) == self.memo());
                    lemma_replay_push(g, su, remembered, tr0, here, tried);
                    lemma_checks_read_keep(self.probe_signature(), exec.device(), readings, exec.readings(), tr0, tried);
                    lemma_visits_push(tr0, tried);
                    lemma_tries_push(tr0, tried);
                    lemma_memo_push(remembered, self.memo_limit(), self.dedups(), tr0, tried);
                    lemma_writes_push(g, exec.device(), exec.prefix_byte(), tr0, tried);
                    lemma_trail_push(text, log.limit(), log.configured(), g, tr0, tried);
                    self.trace@ = self.trace@.push(tried);
                    assert(self.events()[tr0.len() as int] == tried);
                    assert(exec.journal() =~= journal + writes_of(g, exec.device(), exec.prefix_byte(), self.events()));
                }
                let ghost tr1 = self.events();
                match r {
                    Ok(()) => {
                        log.record(LogLevel::Verbose, c, node.bytes.as_slice(), Outcome::Sent);
                        state.push(graph, c);
                        let mut pass: bool = true;
                        if self.probes_each() {
                            let ghost seen = exec.readings();
                            let passed: bool = self.consult(exec);
                            log.record(LogLevel::Verbose, c, node.bytes.as_slice(), verdict_word(passed));
                            proof {
                                let ev = SearchEvent::Probed { sequence: begun.push(c), passed };
                                let due = Cursor::Probing { begun: begun.push(c) };
                                assert(settle(g, su, due) == due);
                                lemma_replay_push(g, su, remembered, tr1, due, ev);
                                lemma_retreat_push(begun, c);
                                lemma_checks_read_more(
                                    self.probe_signature()->Some_0,
                                    exec.device(),
                                    readings,
                                    seen,
                                    exec.readings(),
                                    tr1,
                                    ev,
                                    passed,
                                );
                                lemma_visits_push(tr1, ev);
                                lemma_tries_push(tr1, ev);
                                lemma_memo_push(remembered, self.memo_limit(), self.dedups(), tr1, ev);
                                lemma_writes_push(g, exec.device(), exec.prefix_byte(), tr1, ev);
                                lemma_trail_push(text, log.limit(), log.configured(), g, tr1, ev);
                                self.trace@ = self.trace@.push(ev);
                                assert(self.events()[tr1.len() as int] == ev);
                                assert(exec.journal() =~= journal + writes_of(g, exec.device(), exec.prefix_byte(), self.events()));
                                assert(begun.push(c).last() == c);
                            }
                            pass = passed;
                        }
                        let ghost tr2 = self.events();
                        let mut found: bool = false;
                        if pass {
                            proof {
                                assert(tr2[tr0.len() as int] == tried);
                                assert(tr2.contains(tried));
                                lemma_supported_mono(tr0, tr2, begun, each);
                                if each {
                                    assert(tr2[tr1.len() as int] == SearchEvent::Probed { sequence: begun.push(c), passed: true });
                                }
                                lemma_supported_push(tr2, begun, c, each);
                                assert forall|p: int| 0 <= p < begun.push(c).len() implies anchors_ok_at(
                                    pol,
                                    g.len(),
                                    p,
                                    #[trigger] begun.push(c)[p],
                                ) by {
                                    if p < begun.len() {
                                        assert(begun.push(c)[p] == begun[p]);
                                    }
                                }
                            }
                            found = self.descend(graph, exec, log, state, Ghost(journal), Ghost(readings), Ghost(text), Ghost(remembered));
                            if found {
                                proof {
                                    let h = sequence_hash(state.order()) as u64;
                                    if old(self).memo().contains(h) {
                                        lemma_extends_contains(old(self).memo(), memo0, h);
                                    }
                                    let order = state.order();
                                    assert(order.take(d as int) =~= order.take(d as int + 1).take(d as int));
                                    assert(begun.push(c).take(d as int) =~= begun);
                                    lemma_first_step(g, pol, begun, c, order, tr0, self.events());
                                    assert forall|k: int| tr0.len() <= k < tr2.len() implies !is_visit(
                                        #[trigger] self.events()[k],
                                    ) by {
                                        assert(self.events()[k] == tr2[k]);
                                    }
                                    lemma_ascend_step(tr0, self.events(), from, begun, c, tr2.len() as int);
                                    lemma_budget_step(
                                        visits(tr0),
                                        visits(self.events()),
                                        start,
                                        unsent_below(flags0, c as int),
                                        unsent_below(flags0, c as int + 1),
                                        below,
                                        (n - d) as nat,
                                    );
                                    lemma_budget_step(
                                        tries(tr0),
                                        tries(self.events()),
                                        start_tries,
                                        unsent_below(flags0, c as int),
                                        unsent_below(flags0, c as int + 1),
                                        per,
                                        (n - d) as nat,
                                    );
                                }
                                return true;
                            }
                        }
                        state.pop(graph);
                        proof {
                            assert forall|k: int| tr0.len() <= k < tr2.len() implies !is_visit(
                                #[trigger] self.events()[k],
                            ) by {
                                assert(self.events()[k] == tr2[k]);
                            }
                            if pass {
                                lemma_ascend_step(tr0, self.events(), from, begun, c, tr2.len() as int);
                            } else {
                                lemma_ascend_step(tr0, self.events(), from, begun, c, self.events().len() as int);
                            }
                            lemma_retreat_push(begun, c);
                            assert(begun.push(c).drop_last() =~= begun);
                            assert(state.flags() =~= flags0);
                            lemma_supported_mono(tr0, self.events(), begun, each);
                            assert forall|s: Seq<usize>| #[trigger] candidate(g, pol, begun, s) && s[d as int] == c implies refuted(
                                self.events(),
                                s,
                            ) by {
                                lemma_candidate_step(g, pol, begun, c, s);
                                if !pass {
                                    assert(refutes(tr2[tr1.len() as int], s));
                                    lemma_refuted_mono(tr2, self.events(), s);
                                }
                            }
                            lemma_candidate_done(g, pol, begun, c, tr0, self.events());
                            lemma_budget_step(
                                visits(tr0),
                                visits(self.events()),
                                start,
                                unsent_below(flags0, c as int),
                                unsent_below(flags0, c as int + 1),
                                below,
                                (n - d) as nat,
                            );
                            lemma_budget_step(
                                tries(tr0),
                                tries(self.events()),
                                start_tries,
                                unsent_below(flags0, c as int),
                                unsent_below(flags0, c as int + 1),
                                per,
                                (n - d) as nat,
                            );
                        }
                    },
                    Err(e) => {
                        log.record(LogLevel::Normal, c, node.bytes.as_slice(), failure_word(e));
                        proof {
                            lemma_ascend_step(tr0, self.events(), from, begun, c, self.events().len() as int);
                            lemma_supported_mono(tr0, self.events(), begun, each);
                            assert forall|s: Seq<usize>| #[trigger] candidate(g, pol, begun, s) && s[d as int] == c implies refuted(
                                self.events(),
                                s,
                            ) by {
                                lemma_refuted_by_last(tr0, tried, s);
                            }
                            lemma_candidate_done(g, pol, begun, c, tr0, self.events());
                            lemma_budget_step(
                                visits(tr0),
                                visits(self.events()),
                                start,
                                unsent_below(flags0, c as int),
                                unsent_below(flags0, c as int + 1),
                                below,
                                (n - d) as nat,
                            );
                            lemma_budget_step(
                                tries(tr0),
                                tries(self.events()),
                                start_tries,
                                unsent_below(flags0, c as int),
                                unsent_below(flags0, c as int + 1),
                                per,
                                (n - d) as nat,
                            );
                        }
                    },
                }
            } else {
                proof {
                    lemma_ascend_step(tr0, self.events(), from, begun, c, self.events().len() as int);
                    lemma_settle_skip(g, su, begun, c as nat);
                    assert forall|s: Seq<usize>| #[trigger] candidate(g, pol, begun, s) && s[d as int] == c implies refuted(
                        self.events(),
                        s,
                    ) by {
                        lemma_no_candidate(g, pol, begun, c, s);
                    }
                    lemma_candidate_done(g, pol, begun, c, tr0, self.events());
                    lemma_budget_step(
                        visits(tr0),
                        visits(self.events()),
                        start,
                        unsent_below(flags0, c as int),
                        unsent_below(flags0, c as int + 1),
                        below,
                        (n - d) as nat,
                    );
                    lemma_budget_step(
                        tries(tr0),
                        tries(self.events()),
                        start_tries,
                        unsent_below(flags0, c as int),
                        unsent_below(flags0, c as int + 1),
                        per,
                        (n - d) as nat,
                    );
                }
            }
            c += 1;
        }
        proof {
            assert forall|s: Seq<usize>| #[trigger] candidate(g, pol, begun, s) implies refuted(self.events(), s) by {
                assert(placed_after_deps(g, s, d as int));
            }
            assert(factorial((n - d) as nat) == (n - d) * below);
            assert(tries_bound((n - d) as nat) == (n - d) * per);
            lemma_settle_retreat(g, su, begun);
        }
        false
    }

    /// Searches, depth first and in index order, for a total order of
    /// `graph` that the transport takes node by node and that the probe
    /// passes as the policy demands.
    ///
    /// `Ok` holds the first such order. `SequenceIncomplete` says that the
    /// search was exhausted: every total order within the anchors was ruled
    /// out by an event of the search. The events are exactly those of the
    /// index-order walk, given the answers of the transport and of the probe
    /// that they carry, and the walk ended with the result; the journal, the
    /// readings and the log hold what the events put there, and nothing else.
    pub fn search<T: Transport>(
        &mut self,
        graph: &CommandGraph,
        exec: &mut TransportExecutor<T>,
        log: &mut BoundedLog,
    ) -> (r: Result<Vec<usize>, ExplorerError>)
        requires
            old(log).wf(),
        ensures
            final(self).policy() == old(self).policy(),
            final(self).probe_signature() == old(self).probe_signature(),
            final(self).memo_limit() == old(self).memo_limit(),
            extends(old(self).memo(), final(self).memo()),
            same_device(*old(exec), *final(exec)),
            same_log_setup(*old(log), *final(log)),
            final(self).linked(*final(exec), *final(log), graph@, old(exec).journal(), old(exec).readings(), old(log).text(), old(self).memo()),
            visits(final(self).events()) <= factorial(graph@.len()),
            tries(final(self).events()) <= tries_bound(graph@.len()),
            ascend(final(self).events(), 0, Seq::<usize>::empty()),
            replay(graph@, old(self).setup(old(exec).limit()), old(self).memo(), final(self).events()) == Some(
                Cursor::Done {
                    found: match r {
                        Ok(order) => Some(order@),
                        Err(_) => None,
                    },
                },
            ),
            match r {
                Ok(order) => {
                    &&& final(self).accepted(graph@, order@, old(self).memo())
                    &&& first_unrefuted(graph@, old(self).policy(), final(self).events(), Seq::<usize>::empty(), order@)
                },
                Err(e) => {
                    &&& e == ExplorerError::SequenceIncomplete
                    &&& forall|s: Seq<usize>|
                        is_total_order(graph@, s) && #[trigger] respects_anchors(old(self).policy(), graph@.len(), s)
                            ==> refuted(final(self).events(), s)
                },
            },
    {
        proof {
            self.trace@ = Seq::empty();
        }
        let ghost start = *self;
        let ghost journal = exec.journal();
        let ghost readings = exec.readings();
        let ghost text = log.text();
        let ghost remembered = self.memo();
        let mut state = SearchState::new(graph);
        proof {
            assert(journal + writes_of(graph@, exec.device(), exec.prefix_byte(), self.events()) =~= journal);
            assert(readings.take(readings.len() as int) =~= readings);
            assert(verdicts(self.probe_signature()->Some_0, readings.skip(readings.len() as int)) =~= Seq::<bool>::empty());
        }
        let found: bool = self.descend(graph, exec, log, &mut state, Ghost(journal), Ghost(readings), Ghost(text), Ghost(remembered));
        if found {
            Ok(state.into_sequence())
        } else {
            proof {
                assert forall|s: Seq<usize>|
                    is_total_order(graph@, s) && #[trigger] respects_anchors(old(self).policy(), graph@.len(), s) implies refuted(
                    self.events(),
                    s,
                ) by {
                    assert(s.take(0) =~= Seq::<usize>::empty());
                    assert(candidate(graph@, old(self).policy(), Seq::<usize>::empty(), s));
                }
            }
            Err(ExplorerError::SequenceIncomplete)
        }
    }

    /// Where the transport refused node `k` every time it was tried, the
    /// engine accepted no order of a graph that holds `k`: the search then
    /// ends with `SequenceIncomplete`.
    pub proof fn lemma_no_order_without(&self, g: Seq<CommandNode>, s: Seq<usize>, memo: Seq<u64>, k: usize)
        requires
            k < g.len(),
            forall|i: int| 0 <= i < self.events().len() ==> (#[trigger] self.events()[i] matches SearchEvent::Tried { node, failure, .. }
                ==> node == k ==> failure is Some),
        ensures
            !self.accepted(g, s, memo),
    {
        if self.accepted(g, s, memo) {
            lemma_rejected_node_blocks(self.events(), s, self.checks_each(), k);
        }
    }

    /// On a single chain the only order that the engine accepts is
    /// `0, 1, .., n - 1`.
    pub proof fn lemma_chain_accepted(&self, g: Seq<CommandNode>, s: Seq<usize>, memo: Seq<u64>)
        requires
            is_chain(g),
            g.len() <= usize::MAX,
            self.accepted(g, s, memo),
        ensures
            s == identity_order(g.len()),
    {
        lemma_chain_unique_order(g, s);
    }
}

} // verus!
