//! The deterministic engine: sends the nodes in the order of Kahn's
//! algorithm and stops at the first failure.

use vstd::prelude::*;
use crate::error::{ExplorerError, TransportError};
use crate::graph::{CommandGraph, CommandNode, is_total_order, has_total_order};
use crate::kahn::{KahnState, kahn_order, lemma_kahn_order_sound};
use crate::log::{
    BoundedLog, LogLevel, Outcome, failure_outcome, failure_word, recorded, render_line, verdict_outcome,
    verdict_word,
};
use crate::probe::{VerificationOutcome, VerificationProbe, reading_verdict};
use crate::transport::{Attempt, Transport, TransportExecutor, framed};

verus! {

/// The journal entries of the nodes of `order`, each sent once and accepted.
pub open spec fn accepted_frames(
    g: Seq<CommandNode>,
    address: u8,
    prefix: u8,
    order: Seq<usize>,
) -> Seq<Attempt> {
    Seq::new(
        order.len(),
        |i: int| (Attempt { address, frame: framed(prefix, g[order[i] as int].bytes@), accepted: true }),
    )
}

/// The log text after the nodes of `order` were sent and accepted, one
/// `Verbose` record each.
pub open spec fn sent_trail(
    text: Seq<u8>,
    capacity: nat,
    configured: LogLevel,
    g: Seq<CommandNode>,
    order: Seq<usize>,
) -> Seq<u8>
    decreases order.len(),
{
    if order.len() == 0 {
        text
    } else {
        recorded(
            sent_trail(text, capacity, configured, g, order.drop_last()),
            capacity,
            configured,
            LogLevel::Verbose,
            render_line(order.last(), g[order.last() as int].bytes@, Outcome::Sent),
        )
    }
}

/// A log configured `Quiet` keeps its text whatever is sent.
pub proof fn lemma_quiet_sent_trail(text: Seq<u8>, capacity: nat, g: Seq<CommandNode>, order: Seq<usize>)
    ensures
        sent_trail(text, capacity, LogLevel::Quiet, g, order) == text,
    decreases order.len(),
{
    if order.len() > 0 {
        lemma_quiet_sent_trail(text, capacity, g, order.drop_last());
    }
}

/// The journal after the first `i` nodes of `order` were accepted and the
/// next one failed with `e`: an overlong command leaves no entry, a rejected
/// one leaves its frame.
pub open spec fn journal_stopped(
    journal: Seq<Attempt>,
    g: Seq<CommandNode>,
    address: u8,
    prefix: u8,
    order: Seq<usize>,
    i: int,
    e: TransportError,
) -> Seq<Attempt> {
    let sent = journal + accepted_frames(g, address, prefix, order.take(i));
    match e {
        TransportError::BufferOverflow => sent,
        TransportError::ExecutionFailed => sent.push(
            (Attempt { address, frame: framed(prefix, g[order[i] as int].bytes@), accepted: false }),
        ),
    }
}

/// The log text after the first `i` nodes of `order` were accepted and the
/// next one failed with `e`, which is a `Normal` record.
pub open spec fn trail_stopped(
    text: Seq<u8>,
    capacity: nat,
    configured: LogLevel,
    g: Seq<CommandNode>,
    order: Seq<usize>,
    i: int,
    e: TransportError,
) -> Seq<u8> {
    recorded(
        sent_trail(text, capacity, configured, g, order.take(i)),
        capacity,
        configured,
        LogLevel::Normal,
        render_line(order[i], g[order[i] as int].bytes@, failure_outcome(e)),
    )
}

/// Every command of the nodes of `order` fits a transport that takes
/// commands of at most `limit` bytes.
pub open spec fn all_fit(g: Seq<CommandNode>, order: Seq<usize>, limit: nat) -> bool {
    forall|i: int| 0 <= i < order.len() ==> g[#[trigger] order[i] as int].bytes@.len() <= limit
}

/// The run stopped at position `i` of `order` with the transport error `e`:
/// the nodes before `i` all fit the transport and were accepted, the node at
/// `i` failed, for its length exactly when it is longer than the limit, and
/// nothing after it was sent.
pub open spec fn stopped_at<T: Transport>(
    before: TransportExecutor<T>,
    after: TransportExecutor<T>,
    log_before: BoundedLog,
    log_after: BoundedLog,
    g: Seq<CommandNode>,
    order: Seq<usize>,
    i: int,
    e: TransportError,
) -> bool {
    &&& 0 <= i < order.len()
    &&& all_fit(g, order.take(i), before.limit())
    &&& (e == TransportError::BufferOverflow <==> g[order[i] as int].bytes@.len() > before.limit())
    &&& after.journal() == journal_stopped(before.journal(), g, before.device(), before.prefix_byte(), order, i, e)
    &&& log_after.text() == trail_stopped(log_before.text(), log_before.limit(), log_before.configured(), g, order, i, e)
}

/// The log text after all nodes of `order` were sent and accepted and the
/// probe gave `verdict` on the result, which is a `Normal` record under the
/// number of nodes.
pub open spec fn verified_trail(
    text: Seq<u8>,
    capacity: nat,
    configured: LogLevel,
    g: Seq<CommandNode>,
    order: Seq<usize>,
    verdict: VerificationOutcome,
) -> Seq<u8> {
    recorded(
        sent_trail(text, capacity, configured, g, order),
        capacity,
        configured,
        LogLevel::Normal,
        render_line(order.len() as usize, Seq::<u8>::empty(), verdict_outcome(verdict == VerificationOutcome::Pass)),
    )
}

/// Between `before` and `after` the bus was asked for one reading from the
/// device, of as many bytes as `signature` has, and that reading stands for
/// `verdict`.
pub open spec fn probed_once<T: Transport>(
    before: TransportExecutor<T>,
    after: TransportExecutor<T>,
    signature: Seq<u8>,
    verdict: VerificationOutcome,
) -> bool {
    &&& after.readings().len() == before.readings().len() + 1
    &&& after.readings().drop_last() == before.readings()
    &&& after.readings().last().address == before.device()
    &&& after.readings().last().len == signature.len()
    &&& reading_verdict(signature, after.readings().last()) == verdict
}

/// What a run that sent `order` amounts to under the probe's verdict.
pub fn conclude_run(order: Vec<usize>, verdict: VerificationOutcome) -> (r: Result<Vec<usize>, ExplorerError>)
    ensures
        verdict == VerificationOutcome::Pass ==> r == Ok::<Vec<usize>, ExplorerError>(order),
        verdict == VerificationOutcome::Fail ==> r == Err::<Vec<usize>, ExplorerError>(ExplorerError::VerificationFailed),
{
    match verdict {
        VerificationOutcome::Pass => Ok(order),
        VerificationOutcome::Fail => Err(ExplorerError::VerificationFailed),
    }
}

/// Kahn's algorithm driving a transport.
pub struct TopoSortEngine;

impl TopoSortEngine {
    /// Sends the nodes of `graph` in the order `kahn_order(graph@)`, one
    /// `execute` per node, until a command fails or the queue runs empty.
    ///
    /// `Ok` holds that order, which is then a total order of the graph, and
    /// every node was sent once and accepted. `DependencyCycle` says that the
    /// graph has no total order; the nodes that could be ordered were sent.
    /// `BufferOverflow` and `ExecutionFailed` name the first command that
    /// failed; nothing after it was sent.
    pub fn run<T: Transport>(
        graph: &CommandGraph,
        exec: &mut TransportExecutor<T>,
        log: &mut BoundedLog,
    ) -> (r: Result<Vec<usize>, ExplorerError>)
        requires
            old(log).wf(),
        ensures
            final(log).wf(),
            final(log).limit() == old(log).limit(),
            final(log).configured() == old(log).configured(),
            final(exec).limit() == old(exec).limit(),
            final(exec).prefix_byte() == old(exec).prefix_byte(),
            final(exec).device() == old(exec).device(),
            final(exec).readings() == old(exec).readings(),
            match r {
                Ok(order) => {
                    &&& order@ == kahn_order(graph@)
                    &&& is_total_order(graph@, order@)
                    &&& all_fit(graph@, order@, old(exec).limit())
                    &&& final(exec).journal() == old(exec).journal() + accepted_frames(
                        graph@,
                        old(exec).device(),
                        old(exec).prefix_byte(),
                        order@,
                    )
                    &&& final(log).text() == sent_trail(old(log).text(), old(log).limit(), old(log).configured(), graph@, order@)
                },
                Err(ExplorerError::DependencyCycle) => {
                    &&& !has_total_order(graph@)
                    &&& all_fit(graph@, kahn_order(graph@), old(exec).limit())
                    &&& final(exec).journal() == old(exec).journal() + accepted_frames(
                        graph@,
                        old(exec).device(),
                        old(exec).prefix_byte(),
                        kahn_order(graph@),
                    )
                    &&& final(log).text() == sent_trail(
                        old(log).text(),
                        old(log).limit(),
                        old(log).configured(),
                        graph@,
                        kahn_order(graph@),
                    )
                },
                Err(ExplorerError::BufferOverflow) => exists|i: int|
                    stopped_at(
                        *old(exec),
                        *final(exec),
                        *old(log),
                        *final(log),
                        graph@,
                        kahn_order(graph@),
                        i,
                        TransportError::BufferOverflow,
                    ),
                Err(ExplorerError::ExecutionFailed) => exists|i: int|
                    stopped_at(
                        *old(exec),
                        *final(exec),
                        *old(log),
                        *final(log),
                        graph@,
                        kahn_order(graph@),
                        i,
                        TransportError::ExecutionFailed,
                    ),
                Err(_) => false,
            },
    {
        let ghost g = graph@;
        let ghost full = kahn_order(g);
        let ghost j0 = exec.journal();
        let ghost pre = exec.prefix_byte();
        let ghost dev = exec.device();
        let ghost t0 = log.text();
        let ghost cap = log.limit();
        let ghost lvl = log.configured();
        let n: usize = graph.len();
        let mut st = KahnState::new(graph);
        let mut next: Option<usize> = st.front(graph);
        proof {
            st.lemma_progress(g);
            assert(j0 + accepted_frames(g, dev, pre, st.sent_order()) =~= j0);
        }
        while next.is_some()
            invariant
                g == graph@,
                full == kahn_order(g),
                st.wf(g),
                st.sent_order().len() <= g.len(),
                st.sent_order() == full.take(st.sent_order().len() as int),
                match next {
                    Some(v) => st.sent_order().len() < full.len() && v == full[st.sent_order().len() as int] && v < g.len(),
                    None => st.sent_order() == full,
                },
                log.wf(),
                log.limit() == cap,
                log.configured() == lvl,
                exec.limit() == old(exec).limit(),
                exec.prefix_byte() == pre,
                exec.device() == old(exec).device(),
                exec.readings() == old(exec).readings(),
                exec.journal() == j0 + accepted_frames(g, dev, pre, st.sent_order()),
                all_fit(g, st.sent_order(), exec.limit()),
                log.text() == sent_trail(t0, cap, lvl, g, st.sent_order()),
                j0 == old(exec).journal(),
                pre == old(exec).prefix_byte(),
                dev == old(exec).device(),
                t0 == old(log).text(),
                cap == old(log).limit(),
                lvl == old(log).configured(),
            decreases g.len() - st.sent_order().len(),
        {
            let v: usize = next.unwrap();
            let ghost i = st.sent_order().len() as int;
            let ghost sent = st.sent_order();
            let node = graph.node(v);
            match exec.execute(node.bytes.as_slice()) {
                Ok(()) => {
                    log.record(LogLevel::Verbose, v, node.bytes.as_slice(), Outcome::Sent);
                    st.commit(graph);
                    next = st.front(graph);
                    proof {
                        st.lemma_progress(g);
                        let now = st.sent_order();
                        assert(now.drop_last() =~= sent);
                        assert forall|k: int| 0 <= k < now.len() implies g[#[trigger] now[k] as int].bytes@.len()
                            <= exec.limit() by {
                            if k < sent.len() {
                                assert(now[k] == sent[k]);
                            }
                        }
                        assert(j0 + accepted_frames(g, dev, pre, now) =~= (j0 + accepted_frames(g, dev, pre, sent)).push(
                            Attempt { address: dev, frame: framed(pre, g[v as int].bytes@), accepted: true },
                        ));
                    }
                },
                Err(e) => {
                    log.record(LogLevel::Normal, v, node.bytes.as_slice(), failure_word(e));
                    proof {
                        assert(stopped_at(*old(exec), *exec, *old(log), *log, g, full, i, e));
                    }
                    return Err(ExplorerError::from_transport(e));
                },
            }
        }
        proof {
            lemma_kahn_order_sound(g);
        }
        if st.sent_len(graph) == n {
            Ok(st.into_order(graph))
        } else {
            Err(ExplorerError::DependencyCycle)
        }
    }

    /// Runs as `run` does and then consults `probe` on the state that the
    /// complete order left behind.
    ///
    /// The errors of `run` come as from `run`, and the probe is then not
    /// consulted. After a complete run the result is `Ok` with the order
    /// where the probe passed and `VerificationFailed` where it did not;
    /// either way every node was sent once and accepted, and the verdict is
    /// recorded.
    pub fn run_verified<T: Transport>(
        graph: &CommandGraph,
        exec: &mut TransportExecutor<T>,
        log: &mut BoundedLog,
        probe: &VerificationProbe,
    ) -> (r: Result<Vec<usize>, ExplorerError>)
        requires
            old(log).wf(),
        ensures
            final(log).wf(),
            final(log).limit() == old(log).limit(),
            final(log).configured() == old(log).configured(),
            final(exec).limit() == old(exec).limit(),
            final(exec).prefix_byte() == old(exec).prefix_byte(),
            final(exec).device() == old(exec).device(),
            match r {
                Ok(order) => {
                    &&& order@ == kahn_order(graph@)
                    &&& is_total_order(graph@, order@)
                    &&& all_fit(graph@, order@, old(exec).limit())
                    &&& probed_once(*old(exec), *final(exec), probe.signature(), VerificationOutcome::Pass)
                    &&& final(exec).journal() == old(exec).journal() + accepted_frames(
                        graph@,
                        old(exec).device(),
                        old(exec).prefix_byte(),
                        order@,
                    )
                    &&& final(log).text() == verified_trail(
                        old(log).text(),
                        old(log).limit(),
                        old(log).configured(),
                        graph@,
                        order@,
                        VerificationOutcome::Pass,
                    )
                },
                Err(ExplorerError::VerificationFailed) => {
                    &&& is_total_order(graph@, kahn_order(graph@))
                    &&& all_fit(graph@, kahn_order(graph@), old(exec).limit())
                    &&& probed_once(*old(exec), *final(exec), probe.signature(), VerificationOutcome::Fail)
                    &&& final(exec).journal() == old(exec).journal() + accepted_frames(
                        graph@,
                        old(exec).device(),
                        old(exec).prefix_byte(),
                        kahn_order(graph@),
                    )
                    &&& final(log).text() == verified_trail(
                        old(log).text(),
                        old(log).limit(),
                        old(log).configured(),
                        graph@,
                        kahn_order(graph@),
                        VerificationOutcome::Fail,
                    )
                },
                Err(ExplorerError::DependencyCycle) => {
                    &&& !has_total_order(graph@)
                    &&& all_fit(graph@, kahn_order(graph@), old(exec).limit())
                    &&& final(exec).readings() == old(exec).readings()
                    &&& final(exec).journal() == old(exec).journal() + accepted_frames(
                        graph@,
                        old(exec).device(),
                        old(exec).prefix_byte(),
                        kahn_order(graph@),
                    )
                    &&& final(log).text() == sent_trail(
                        old(log).text(),
                        old(log).limit(),
                        old(log).configured(),
                        graph@,
                        kahn_order(graph@),
                    )
                },
                Err(ExplorerError::BufferOverflow) => final(exec).readings() == old(exec).readings() && exists|i: int|
                    stopped_at(
                        *old(exec),
                        *final(exec),
                        *old(log),
                        *final(log),
                        graph@,
                        kahn_order(graph@),
                        i,
                        TransportError::BufferOverflow,
                    ),
                Err(ExplorerError::ExecutionFailed) => final(exec).readings() == old(exec).readings() && exists|i: int|
                    stopped_at(
                        *old(exec),
                        *final(exec),
                        *old(log),
                        *final(log),
                        graph@,
                        kahn_order(graph@),
                        i,
                        TransportError::ExecutionFailed,
                    ),
                Err(_) => false,
            },
    {
        match TopoSortEngine::run(graph, exec, log) {
            Ok(order) => {
                let verdict = probe.check(exec);
                let passed: bool = match verdict {
                    VerificationOutcome::Pass => true,
                    VerificationOutcome::Fail => false,
                };
                let empty: Vec<u8> = Vec::new();
                proof {
                    assert(empty@ =~= Seq::<u8>::empty());
                }
                log.record(LogLevel::Normal, order.len(), empty.as_slice(), verdict_word(passed));
                conclude_run(order, verdict)
            },
            Err(e) => Err(e),
        }
    }
}

} // verus!
