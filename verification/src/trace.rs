//! The trace of a search: what the engine did, step by step, and what
//! that says of the orders of the graph, the journal, the readings and the
//! log.

use vstd::prelude::*;
use crate::error::TransportError;
use crate::graph::{CommandNode, can_follow, count_true};
use crate::hash::sequence_hash;
use crate::log::{LogLevel, Outcome, failure_outcome, recorded, render_line, verdict_outcome};
use crate::policy::{SearchPolicy, candidate, precedes, lemma_candidate_step};
use crate::probe::{VerificationOutcome, reading_verdict};
use crate::transport::{Attempt, Reading, framed};

verus! {

/// What the engine did, step by step.
pub enum SearchEvent {
    /// `node` was handed to the transport after `prefix` had been committed.
    Tried { prefix: Seq<usize>, node: usize, failure: Option<TransportError> },
    /// The probe was consulted after the last node of `sequence` was sent.
    Probed { sequence: Seq<usize>, passed: bool },
    /// The probe was consulted on the complete order `sequence`.
    Checked { sequence: Seq<usize>, passed: bool },
    /// The complete order `sequence` was passed over: its hash was remembered.
    Skipped { sequence: Seq<usize> },
    /// The complete order `sequence` was accepted without a final check.
    Accepted { sequence: Seq<usize> },
}

/// The event rules the order `s` out: a node of `s` failed where `s` has it,
/// a check failed on a beginning of `s`, or `s` was passed over.
pub open spec fn refutes(ev: SearchEvent, s: Seq<usize>) -> bool {
    match ev {
        SearchEvent::Tried { prefix, node, failure } => {
            &&& failure is Some
            &&& prefix.len() < s.len()
            &&& s.take(prefix.len() as int) == prefix
            &&& s[prefix.len() as int] == node
        },
        SearchEvent::Probed { sequence, passed } => {
            &&& !passed
            &&& sequence.len() <= s.len()
            &&& s.take(sequence.len() as int) == sequence
        },
        SearchEvent::Checked { sequence, passed } => !passed && sequence == s,
        SearchEvent::Skipped { sequence } => sequence == s,
        SearchEvent::Accepted { sequence } => false,
    }
}

/// Some event of `trace` rules the order `s` out.
pub open spec fn refuted(trace: Seq<SearchEvent>, s: Seq<usize>) -> bool {
    exists|i: int| 0 <= i < trace.len() && refutes(#[trigger] trace[i], s)
}

/// `b` begins with `a`.
pub open spec fn extends<A>(a: Seq<A>, b: Seq<A>) -> bool {
    &&& a.len() <= b.len()
    &&& forall|i: int| 0 <= i < a.len() ==> #[trigger] b[i] == a[i]
}

/// The entry at `p` of `s` was taken by the transport after the entries
/// before it and, where `each` is set, passed the probe.
pub open spec fn step_supported(trace: Seq<SearchEvent>, s: Seq<usize>, p: int, each: bool) -> bool {
    &&& trace.contains(SearchEvent::Tried { prefix: s.take(p), node: s[p], failure: None })
    &&& each ==> trace.contains(SearchEvent::Probed { sequence: s.take(p + 1), passed: true })
}

/// Every entry of `s` is supported by the trace.
pub open spec fn supported(trace: Seq<SearchEvent>, s: Seq<usize>, each: bool) -> bool {
    forall|p: int| 0 <= p < s.len() ==> #[trigger] step_supported(trace, s, p, each)
}

/// The event agrees with the graph, the transport's limit and the
/// remembered hashes: a node was tried only where it could follow what was
/// committed, it failed for its length exactly when it is longer than the
/// limit, and an order was passed over only where its hash is remembered.
pub open spec fn faithful_event(g: Seq<CommandNode>, limit: nat, memo: Seq<u64>, ev: SearchEvent) -> bool {
    match ev {
        SearchEvent::Tried { prefix, node, failure } => {
            &&& can_follow(g, prefix, node)
            &&& (failure == Some(TransportError::BufferOverflow) <==> g[node as int].bytes@.len() > limit)
        },
        SearchEvent::Skipped { sequence } => memo.contains(sequence_hash(sequence) as u64),
        _ => true,
    }
}

/// Every event of the trace agrees with the graph, the limit and the
/// remembered hashes.
pub open spec fn faithful(g: Seq<CommandNode>, limit: nat, memo: Seq<u64>, trace: Seq<SearchEvent>) -> bool {
    forall|i: int| 0 <= i < trace.len() ==> faithful_event(g, limit, memo, #[trigger] trace[i])
}

/// The verdict of the check that an event stands for, if it is one.
pub open spec fn check_of(ev: SearchEvent) -> Seq<bool> {
    match ev {
        SearchEvent::Probed { sequence, passed } => seq![passed],
        SearchEvent::Checked { sequence, passed } => seq![passed],
        _ => Seq::<bool>::empty(),
    }
}

/// The verdicts of the checks among the events of `trace`, in order.
pub open spec fn checks_of(trace: Seq<SearchEvent>) -> Seq<bool>
    decreases trace.len(),
{
    if trace.len() == 0 {
        Seq::<bool>::empty()
    } else {
        checks_of(trace.drop_last()) + check_of(trace.last())
    }
}

/// For each reading, whether the bus gave the bytes of `signature`.
pub open spec fn verdicts(signature: Seq<u8>, readings: Seq<Reading>) -> Seq<bool> {
    Seq::new(readings.len(), |i: int| reading_verdict(signature, readings[i]) == VerificationOutcome::Pass)
}

/// The readings since `before` are those of the checks among the events:
/// one reading for each check, of as many bytes as the signature has, from
/// the device at `address`, which stands for the check's verdict.
pub open spec fn checks_read(
    signature: Option<Seq<u8>>,
    address: u8,
    before: Seq<Reading>,
    now: Seq<Reading>,
    trace: Seq<SearchEvent>,
) -> bool {
    &&& before.len() <= now.len()
    &&& now.take(before.len() as int) == before
    &&& match signature {
        Some(sig) => {
            &&& verdicts(sig, now.skip(before.len() as int)) == checks_of(trace)
            &&& forall|i: int| before.len() <= i < now.len() ==> (#[trigger] now[i]).address == address && now[i].len == sig.len()
        },
        None => now == before && checks_of(trace) == Seq::<bool>::empty(),
    }
}

/// The checks of a trace with one more event.
pub proof fn lemma_checks_push(t: Seq<SearchEvent>, ev: SearchEvent)
    ensures
        checks_of(t.push(ev)) == checks_of(t) + check_of(ev),
{
    assert(t.push(ev).drop_last() =~= t);
}

/// An event that is no check leaves the link between readings and checks as
/// it is.
pub proof fn lemma_checks_read_keep(
    signature: Option<Seq<u8>>,
    address: u8,
    before: Seq<Reading>,
    now: Seq<Reading>,
    t: Seq<SearchEvent>,
    ev: SearchEvent,
)
    requires
        checks_read(signature, address, before, now, t),
        !(ev is Probed),
        !(ev is Checked),
    ensures
        checks_read(signature, address, before, now, t.push(ev)),
{
    lemma_checks_push(t, ev);
    assert(checks_of(t) + check_of(ev) =~= checks_of(t));
}

/// A check that read once more keeps the link between readings and checks.
pub proof fn lemma_checks_read_more(
    signature: Seq<u8>,
    address: u8,
    before: Seq<Reading>,
    seen: Seq<Reading>,
    now: Seq<Reading>,
    t: Seq<SearchEvent>,
    ev: SearchEvent,
    passed: bool,
)
    requires
        checks_read(Some(signature), address, before, seen, t),
        now.len() == seen.len() + 1,
        now.drop_last() == seen,
        now.last().address == address,
        now.last().len == signature.len(),
        passed == (reading_verdict(signature, now.last()) == VerificationOutcome::Pass),
        check_of(ev) == seq![passed],
    ensures
        checks_read(Some(signature), address, before, now, t.push(ev)),
{
    lemma_checks_push(t, ev);
    let n = before.len() as int;
    assert forall|i: int| before.len() <= i < now.len() implies (#[trigger] now[i]).address == address && now[i].len
        == signature.len() by {
        if i < seen.len() {
            assert(now.drop_last()[i] == now[i]);
        }
    }
    assert(now.take(n) =~= seen.take(n)) by {
        assert forall|i: int| 0 <= i < n implies now.take(n)[i] == seen.take(n)[i] by {
            assert(now.drop_last()[i] == now[i]);
        }
    }
    assert(verdicts(signature, now.skip(n)) =~= verdicts(signature, seen.skip(n)) + seq![passed]) by {
        assert forall|i: int| 0 <= i < now.len() - n implies verdicts(signature, now.skip(n))[i] == (verdicts(
            signature,
            seen.skip(n),
        ) + seq![passed])[i] by {
            if i < seen.len() - n {
                assert(now.drop_last()[n + i] == now[n + i]);
            }
        }
    }
}

/// What an event put into the transport's journal.
pub open spec fn write_of(g: Seq<CommandNode>, address: u8, prefix: u8, ev: SearchEvent) -> Seq<Attempt> {
    match ev {
        SearchEvent::Tried { prefix: begun, node, failure } => match failure {
            None => seq![(Attempt { address, frame: framed(prefix, g[node as int].bytes@), accepted: true })],
            Some(TransportError::ExecutionFailed) => seq![
                (Attempt { address, frame: framed(prefix, g[node as int].bytes@), accepted: false }),
            ],
            Some(TransportError::BufferOverflow) => Seq::<Attempt>::empty(),
        },
        _ => Seq::<Attempt>::empty(),
    }
}

/// What the events of `trace` put into the transport's journal.
pub open spec fn writes_of(
    g: Seq<CommandNode>,
    address: u8,
    prefix: u8,
    trace: Seq<SearchEvent>,
) -> Seq<Attempt>
    decreases trace.len(),
{
    if trace.len() == 0 {
        Seq::<Attempt>::empty()
    } else {
        writes_of(g, address, prefix, trace.drop_last()) + write_of(g, address, prefix, trace.last())
    }
}

/// The log text after the record of one event: an accepted command and a
/// check after a single node are `Verbose` records, a failed command and a
/// check of a complete order are `Normal` records.
pub open spec fn trail_step(
    text: Seq<u8>,
    capacity: nat,
    configured: LogLevel,
    g: Seq<CommandNode>,
    ev: SearchEvent,
) -> Seq<u8> {
    match ev {
        SearchEvent::Tried { prefix, node, failure } => match failure {
            None => recorded(text, capacity, configured, LogLevel::Verbose, render_line(node, g[node as int].bytes@, Outcome::Sent)),
            Some(e) => recorded(text, capacity, configured, LogLevel::Normal, render_line(node, g[node as int].bytes@, failure_outcome(e))),
        },
        SearchEvent::Probed { sequence, passed } => recorded(
            text,
            capacity,
            configured,
            LogLevel::Verbose,
            render_line(sequence.last(), g[sequence.last() as int].bytes@, verdict_outcome(passed)),
        ),
        SearchEvent::Checked { sequence, passed } => recorded(
            text,
            capacity,
            configured,
            LogLevel::Normal,
            render_line(sequence.len() as usize, Seq::<u8>::empty(), verdict_outcome(passed)),
        ),
        SearchEvent::Skipped { sequence } => text,
        SearchEvent::Accepted { sequence } => text,
    }
}

/// The log text after the records of all events of `trace`.
pub open spec fn trail_of(
    text: Seq<u8>,
    capacity: nat,
    configured: LogLevel,
    g: Seq<CommandNode>,
    trace: Seq<SearchEvent>,
) -> Seq<u8>
    decreases trace.len(),
{
    if trace.len() == 0 {
        text
    } else {
        trail_step(trail_of(text, capacity, configured, g, trace.drop_last()), capacity, configured, g, trace.last())
    }
}

/// Every order that begins with `begun` and is tried before `order` is
/// ruled out by the trace.
pub open spec fn first_unrefuted(
    g: Seq<CommandNode>,
    policy: SearchPolicy,
    trace: Seq<SearchEvent>,
    begun: Seq<usize>,
    order: Seq<usize>,
) -> bool {
    forall|s: Seq<usize>| #[trigger] candidate(g, policy, begun, s) && precedes(s, order) ==> refuted(trace, s)
}

/// The remembered hashes after one event: the hash of a complete order
/// whose check failed is added where hashes are kept and there is room.
pub open spec fn memo_step(memo: Seq<u64>, limit: nat, keeps: bool, ev: SearchEvent) -> Seq<u64> {
    match ev {
        SearchEvent::Checked { sequence, passed } => if !passed && keeps && memo.len() < limit {
            memo.push(sequence_hash(sequence) as u64)
        } else {
            memo
        },
        _ => memo,
    }
}

/// The remembered hashes after all events of `trace`.
pub open spec fn memo_after(memo: Seq<u64>, limit: nat, keeps: bool, trace: Seq<SearchEvent>) -> Seq<u64>
    decreases trace.len(),
{
    if trace.len() == 0 {
        memo
    } else {
        memo_step(memo_after(memo, limit, keeps, trace.drop_last()), limit, keeps, trace.last())
    }
}

/// The remembered hashes after one more event.
pub proof fn lemma_memo_push(memo: Seq<u64>, limit: nat, keeps: bool, t: Seq<SearchEvent>, ev: SearchEvent)
    ensures
        memo_after(memo, limit, keeps, t.push(ev)) == memo_step(memo_after(memo, limit, keeps, t), limit, keeps, ev),
{
    assert(t.push(ev).drop_last() =~= t);
}

/// The order found below `begun.push(c)` is the first below `begun` as
/// well, once every order that continues `begun` with a smaller node is
/// ruled out.
pub proof fn lemma_first_step(
    g: Seq<CommandNode>,
    policy: SearchPolicy,
    begun: Seq<usize>,
    c: usize,
    order: Seq<usize>,
    before: Seq<SearchEvent>,
    after: Seq<SearchEvent>,
)
    requires
        extends(before, after),
        begun.len() < g.len(),
        begun.len() < order.len(),
        order.take(begun.len() as int + 1) == begun.push(c),
        forall|s: Seq<usize>| #[trigger] candidate(g, policy, begun, s) && s[begun.len() as int] < c ==> refuted(before, s),
        first_unrefuted(g, policy, after, begun.push(c), order),
    ensures
        first_unrefuted(g, policy, after, begun, order),
{
    let d = begun.len() as int;
    assert(order.take(d) =~= begun) by {
        assert forall|i: int| 0 <= i < d implies order.take(d)[i] == begun[i] by {
            assert(order.take(d + 1)[i] == begun.push(c)[i]);
        }
    }
    assert(order[d] == c) by {
        assert(order.take(d + 1)[d] == begun.push(c)[d]);
    }
    assert forall|s: Seq<usize>| #[trigger] candidate(g, policy, begun, s) && precedes(s, order) implies refuted(after, s) by {
        let p = choose|p: int| 0 <= p < s.len() && p < order.len() && #[trigger] s.take(p) == order.take(p) && s[p] < order[p];
        if p < d {
            assert(s.take(d)[p] == order.take(d)[p]);
        } else if p == d {
            lemma_refuted_mono(before, after, s);
        } else {
            assert(s.take(p)[d] == order.take(p)[d]);
            lemma_candidate_step(g, policy, begun, c, s);
        }
    }
}

/// A log configured `Quiet` keeps its text whatever the search does.
pub proof fn lemma_quiet_trail(text: Seq<u8>, capacity: nat, g: Seq<CommandNode>, trace: Seq<SearchEvent>)
    ensures
        trail_of(text, capacity, LogLevel::Quiet, g, trace) == text,
    decreases trace.len(),
{
    if trace.len() > 0 {
        lemma_quiet_trail(text, capacity, g, trace.drop_last());
    }
}

/// The product `1 * 2 * .. * n`: the number of orders of `n` nodes.
pub open spec fn factorial(n: nat) -> nat
    decreases n,
{
    if n == 0 {
        1
    } else {
        n * factorial((n - 1) as nat)
    }
}

/// The event is a decision on a complete order.
pub open spec fn is_visit(ev: SearchEvent) -> bool {
    ev is Checked || ev is Skipped || ev is Accepted
}

/// The number of complete orders that the search reached.
pub open spec fn visits(trace: Seq<SearchEvent>) -> nat
    decreases trace.len(),
{
    if trace.len() == 0 {
        0
    } else {
        visits(trace.drop_last()) + if is_visit(trace.last()) { 1nat } else { 0nat }
    }
}

/// The complete order that a decision is about.
pub open spec fn visited(ev: SearchEvent) -> Seq<usize> {
    match ev {
        SearchEvent::Checked { sequence, passed } => sequence,
        SearchEvent::Skipped { sequence } => sequence,
        SearchEvent::Accepted { sequence } => sequence,
        _ => Seq::<usize>::empty(),
    }
}

/// Where the event is a decision on a complete order, that order begins
/// with `begun`.
pub open spec fn visit_below(ev: SearchEvent, begun: Seq<usize>) -> bool {
    is_visit(ev) ==> begun.len() <= visited(ev).len() && visited(ev).take(begun.len() as int) == begun
}

/// Where the event is a decision on a complete order, that order has a node
/// below `c` at position `d`.
pub open spec fn visit_low(ev: SearchEvent, d: int, c: int) -> bool {
    is_visit(ev) ==> d < visited(ev).len() && visited(ev)[d] < c
}

/// Where both events are decisions on complete orders, the order of the
/// first is tried before the order of the second.
pub open spec fn visit_pair(a: SearchEvent, b: SearchEvent) -> bool {
    is_visit(a) && is_visit(b) ==> precedes(visited(a), visited(b))
}

/// The complete orders decided on from position `from` of the trace on all
/// begin with `begun`, and each was decided on before every order that is
/// tried after it: no order was decided on twice.
pub open spec fn ascend(trace: Seq<SearchEvent>, from: int, begun: Seq<usize>) -> bool {
    &&& forall|k: int| from <= k < trace.len() ==> visit_below(#[trigger] trace[k], begun)
    &&& forall|i: int, j: int| from <= i < j < trace.len() ==> visit_pair(#[trigger] trace[i], #[trigger] trace[j])
}

/// The complete orders decided on from position `from` of the trace on have
/// a node below `c` at position `d`.
pub open spec fn low(trace: Seq<SearchEvent>, from: int, d: int, c: int) -> bool {
    forall|k: int| from <= k < trace.len() ==> visit_low(#[trigger] trace[k], d, c)
}

/// The decisions stay in ascending order over one more node `c` after
/// `begun`: the events from `deeper` on are those below `begun.push(c)`, and
/// between the earlier events and them no decision was made.
pub proof fn lemma_ascend_step(
    before: Seq<SearchEvent>,
    after: Seq<SearchEvent>,
    from: int,
    begun: Seq<usize>,
    c: usize,
    deeper: int,
)
    requires
        0 <= from <= before.len() <= deeper <= after.len(),
        extends(before, after),
        ascend(before, from, begun),
        low(before, from, begun.len() as int, c as int),
        forall|k: int| before.len() <= k < deeper ==> !is_visit(#[trigger] after[k]),
        ascend(after, deeper, begun.push(c)),
    ensures
        ascend(after, from, begun),
        low(after, from, begun.len() as int, c + 1),
{
    let d = begun.len() as int;
    assert forall|k: int| from <= k < after.len() implies visit_below(#[trigger] after[k], begun) && visit_low(
        after[k],
        d,
        c + 1,
    ) by {
        if k < before.len() {
            assert(after[k] == before[k]);
            assert(visit_below(before[k], begun));
            assert(visit_low(before[k], d, c as int));
        } else if k >= deeper {
            assert(visit_below(after[k], begun.push(c)));
            if is_visit(after[k]) {
                let v = visited(after[k]);
                assert(v.take(d) =~= v.take(d + 1).take(d));
                assert(begun.push(c).take(d) =~= begun);
                assert(v.take(d + 1)[d] == begun.push(c)[d]);
            }
        }
    }
    assert forall|i: int, j: int| from <= i < j < after.len() implies visit_pair(#[trigger] after[i], #[trigger] after[j]) by {
        if j < before.len() {
            assert(after[i] == before[i]);
            assert(after[j] == before[j]);
            assert(visit_pair(before[i], before[j]));
        } else if i >= deeper {
            assert(visit_pair(after[i], after[j]));
        } else if i < before.len() && j >= deeper {
            assert(after[i] == before[i]);
            assert(visit_below(before[i], begun));
            assert(visit_low(before[i], d, c as int));
            assert(visit_below(after[j], begun.push(c)));
            if is_visit(after[i]) && is_visit(after[j]) {
                let a = visited(after[i]);
                let b = visited(after[j]);
                assert(b.take(d) =~= b.take(d + 1).take(d));
                assert(begun.push(c).take(d) =~= begun);
                assert(b.take(d + 1)[d] == begun.push(c)[d]);
                assert(a.take(d) == b.take(d));
            }
        }
    }
}

/// The number of commands that the search handed to the transport.
pub open spec fn tries(trace: Seq<SearchEvent>) -> nat
    decreases trace.len(),
{
    if trace.len() == 0 {
        0
    } else {
        tries(trace.drop_last()) + if trace.last() is Tried { 1nat } else { 0nat }
    }
}

/// The most commands that a search hands to the transport below a sequence
/// that leaves `m` nodes open: each of the `m` nodes once, and below each
/// what the `m - 1` others take.
pub open spec fn tries_bound(m: nat) -> nat
    decreases m,
{
    if m == 0 {
        0
    } else {
        m * (1 + tries_bound((m - 1) as nat))
    }
}

/// The tries of a trace with one more event.
pub proof fn lemma_tries_push(t: Seq<SearchEvent>, ev: SearchEvent)
    ensures
        tries(t.push(ev)) == tries(t) + if ev is Tried { 1nat } else { 0nat },
{
    assert(t.push(ev).drop_last() =~= t);
}

/// The number of `false` flags among the first `c`.
pub open spec fn unsent_below(flags: Seq<bool>, c: int) -> nat
    decreases c,
{
    if c <= 0 {
        0
    } else {
        unsent_below(flags, c - 1) + if !flags[c - 1] { 1nat } else { 0nat }
    }
}

/// The visits of a trace with one more event.
pub proof fn lemma_visits_push(t: Seq<SearchEvent>, ev: SearchEvent)
    ensures
        visits(t.push(ev)) == visits(t) + if is_visit(ev) { 1nat } else { 0nat },
{
    assert(t.push(ev).drop_last() =~= t);
}

/// Among the first `c` flags, those set and those not set add up to `c`.
pub proof fn lemma_unsent_prefix(flags: Seq<bool>, c: int)
    requires
        0 <= c <= flags.len(),
    ensures
        unsent_below(flags, c) + count_true(flags.take(c)) == c,
    decreases c,
{
    if c > 0 {
        lemma_unsent_prefix(flags, c - 1);
        assert(flags.take(c).drop_last() =~= flags.take(c - 1));
    }
}

/// The number of unset flags grows with the range.
pub proof fn lemma_unsent_mono(flags: Seq<bool>, a: int, b: int)
    requires
        a <= b,
    ensures
        unsent_below(flags, a) <= unsent_below(flags, b),
    decreases b - a,
{
    if a < b {
        lemma_unsent_mono(flags, a, b - 1);
    }
}

/// One more candidate is accounted for: an unsent node costs at most `f`
/// visits, any other node costs none.
pub proof fn lemma_budget_step(spent0: nat, spent1: nat, start: nat, u0: nat, u1: nat, f: nat, most: nat)
    requires
        spent0 <= start + u0 * f,
        spent1 == spent0 && u0 <= u1 <= u0 + 1 || spent1 <= spent0 + f && u1 == u0 + 1,
        u1 <= most,
    ensures
        spent1 <= start + u1 * f,
        spent1 <= start + most * f,
{
    assert((u0 + 1) * f == u0 * f + f) by (nonlinear_arith);
    assert(u1 * f <= most * f) by (nonlinear_arith)
        requires
            u1 <= most,
    ;
}

/// What a sequence holds, every sequence that begins with it holds.
pub proof fn lemma_extends_contains<A>(a: Seq<A>, b: Seq<A>, x: A)
    requires
        extends(a, b),
        a.contains(x),
    ensures
        b.contains(x),
{
    let i = choose|i: int| 0 <= i < a.len() && a[i] == x;
    assert(b[i] == x);
}

/// An order that a trace rules out stays ruled out as the trace grows.
pub proof fn lemma_refuted_mono(a: Seq<SearchEvent>, b: Seq<SearchEvent>, s: Seq<usize>)
    requires
        extends(a, b),
        refuted(a, s),
    ensures
        refuted(b, s),
{
    let i = choose|i: int| 0 <= i < a.len() && refutes(#[trigger] a[i], s);
    assert(b[i] == a[i]);
}

/// An event that rules an order out does so at the end of any trace.
pub proof fn lemma_refuted_by_last(t: Seq<SearchEvent>, ev: SearchEvent, s: Seq<usize>)
    requires
        refutes(ev, s),
    ensures
        refuted(t.push(ev), s),
{
    assert(t.push(ev)[t.len() as int] == ev);
}

/// A sequence that a trace supports stays supported as the trace grows.
pub proof fn lemma_supported_mono(a: Seq<SearchEvent>, b: Seq<SearchEvent>, s: Seq<usize>, each: bool)
    requires
        extends(a, b),
        supported(a, s, each),
    ensures
        supported(b, s, each),
{
    assert forall|p: int| 0 <= p < s.len() implies #[trigger] step_supported(b, s, p, each) by {
        assert(step_supported(a, s, p, each));
        lemma_extends_contains(a, b, SearchEvent::Tried { prefix: s.take(p), node: s[p], failure: None });
        if each {
            lemma_extends_contains(a, b, SearchEvent::Probed { sequence: s.take(p + 1), passed: true });
        }
    }
}

/// A supported sequence stays supported by one more entry that the
/// transport took and, where checks are made after each node, the probe passed.
pub proof fn lemma_supported_push(t: Seq<SearchEvent>, s: Seq<usize>, c: usize, each: bool)
    requires
        supported(t, s, each),
        t.contains(SearchEvent::Tried { prefix: s, node: c, failure: None }),
        each ==> t.contains(SearchEvent::Probed { sequence: s.push(c), passed: true }),
    ensures
        supported(t, s.push(c), each),
{
    let s2 = s.push(c);
    assert forall|p: int| 0 <= p < s2.len() implies #[trigger] step_supported(t, s2, p, each) by {
        if p < s.len() {
            assert(step_supported(t, s, p, each));
            assert(s2.take(p) =~= s.take(p));
            assert(s2.take(p + 1) =~= s.take(p + 1));
        } else {
            assert(s2.take(p) =~= s);
            assert(s2.take(p + 1) =~= s2);
        }
    }
}

/// The journal entries of a trace with one more event.
pub proof fn lemma_writes_push(
    g: Seq<CommandNode>,
    address: u8,
    prefix: u8,
    t: Seq<SearchEvent>,
    ev: SearchEvent,
)
    ensures
        writes_of(g, address, prefix, t.push(ev)) == writes_of(g, address, prefix, t) + write_of(g, address, prefix, ev),
{
    assert(t.push(ev).drop_last() =~= t);
}

/// The log text of a trace with one more event.
pub proof fn lemma_trail_push(
    text: Seq<u8>,
    capacity: nat,
    configured: LogLevel,
    g: Seq<CommandNode>,
    t: Seq<SearchEvent>,
    ev: SearchEvent,
)
    ensures
        trail_of(text, capacity, configured, g, t.push(ev)) == trail_step(
            trail_of(text, capacity, configured, g, t),
            capacity,
            configured,
            g,
            ev,
        ),
{
    assert(t.push(ev).drop_last() =~= t);
}

/// A node that the transport refused every time it was tried stands in no
/// sequence that the trace supports.
pub proof fn lemma_rejected_node_blocks(trace: Seq<SearchEvent>, s: Seq<usize>, each: bool, k: usize)
    requires
        supported(trace, s, each),
        forall|i: int| 0 <= i < trace.len() ==> (#[trigger] trace[i] matches SearchEvent::Tried { node, failure, .. } ==> node == k
            ==> failure is Some),
    ensures
        !s.contains(k),
{
    if s.contains(k) {
        let p = choose|p: int| 0 <= p < s.len() && s[p] == k;
        assert(step_supported(trace, s, p, each));
        let ev = SearchEvent::Tried { prefix: s.take(p), node: s[p], failure: None };
        let i = choose|i: int| 0 <= i < trace.len() && trace[i] == ev;
        assert(trace[i] matches SearchEvent::Tried { node, failure, .. } ==> node == k ==> failure is Some);
    }
}

/// Once every order that continues `begun` with `c` is ruled out, so is
/// every order that continues it with a node up to `c`.
pub proof fn lemma_candidate_done(
    g: Seq<CommandNode>,
    policy: SearchPolicy,
    begun: Seq<usize>,
    c: usize,
    before: Seq<SearchEvent>,
    after: Seq<SearchEvent>,
)
    requires
        extends(before, after),
        begun.len() < g.len(),
        forall|s: Seq<usize>| #[trigger] candidate(g, policy, begun, s) && s[begun.len() as int] < c ==> refuted(before, s),
        forall|s: Seq<usize>| #[trigger] candidate(g, policy, begun, s) && s[begun.len() as int] == c ==> refuted(after, s),
    ensures
        forall|s: Seq<usize>| #[trigger] candidate(g, policy, begun, s) && s[begun.len() as int] < c + 1 ==> refuted(after, s),
{
    assert forall|s: Seq<usize>| #[trigger] candidate(g, policy, begun, s) && s[begun.len() as int] < c + 1 implies refuted(after, s) by {
        if s[begun.len() as int] < c {
            lemma_refuted_mono(before, after, s);
        }
    }
}

} // verus!
