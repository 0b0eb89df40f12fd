use init_explorer::error::ExplorerError;
use init_explorer::graph::{CommandGraph, CommandNode};
use init_explorer::log::{BoundedLog, LogLevel};
use init_explorer::probe::VerificationProbe;
use init_explorer::hash::hash_sequence;
use init_explorer::policy::{Dedup, SearchPolicy, VerificationPolicy};
use init_explorer::search::BacktrackSearchEngine;
use init_explorer::transport::{BusFault, Transport, TransportExecutor};

/// A bus that records what is written, rejects listed frames, and answers
/// reads from a script; once the script is used up it answers with zeros.
struct ScriptedBus {
    written: Vec<Vec<u8>>,
    reject: Vec<Vec<u8>>,
    reject_once: Vec<Vec<u8>>,
    reads: Vec<Result<Vec<u8>, BusFault>>,
    read_count: usize,
}

impl ScriptedBus {
    fn new() -> Self {
        ScriptedBus { written: Vec::new(), reject: Vec::new(), reject_once: Vec::new(), reads: Vec::new(), read_count: 0 }
    }
}

impl Transport for ScriptedBus {
    fn write(&mut self, _address: u8, bytes: &[u8]) -> Result<(), BusFault> {
        self.written.push(bytes.to_vec());
        if self.reject.iter().any(|f| f.as_slice() == bytes) {
            return Err(BusFault);
        }
        if let Some(at) = self.reject_once.iter().position(|f| f.as_slice() == bytes) {
            self.reject_once.remove(at);
            return Err(BusFault);
        }
        Ok(())
    }

    fn read(&mut self, _address: u8, len: usize) -> Result<Vec<u8>, BusFault> {
        let n = self.read_count;
        self.read_count += 1;
        if n < self.reads.len() {
            self.reads[n].clone()
        } else {
            Ok(vec![0; len])
        }
    }
}

fn policy(verification: VerificationPolicy, dedup: Dedup) -> SearchPolicy {
    SearchPolicy { verification, dedup, first: None, last: None }
}

fn plain() -> SearchPolicy {
    policy(VerificationPolicy::Off, Dedup::Off)
}

fn diamond() -> CommandGraph {
    CommandGraph::new(vec![
        CommandNode::new(vec![0xA0], vec![]),
        CommandNode::new(vec![0xB0], vec![0]),
        CommandNode::new(vec![0xC0], vec![0]),
        CommandNode::new(vec![0xD0], vec![1, 2]),
    ])
}

fn independent(n: usize) -> CommandGraph {
    CommandGraph::new((0..n).map(|i| CommandNode::new(vec![0x10 + i as u8], vec![])).collect())
}

fn quiet() -> BoundedLog {
    BoundedLog::new(LogLevel::Quiet, 0)
}

#[test]
fn diamond_yields_the_first_order_in_index_order() {
    let graph = diamond();
    let mut exec = TransportExecutor::new(ScriptedBus::new(), 0x3C, 0x00, 2);
    let mut engine = BacktrackSearchEngine::new(plain(), None, 0);
    assert_eq!(engine.search(&graph, &mut exec, &mut quiet()), Ok(vec![0, 1, 2, 3]));
    assert_eq!(exec.bus().written, vec![vec![0, 0xA0], vec![0, 0xB0], vec![0, 0xC0], vec![0, 0xD0]]);
}

#[test]
fn chain_yields_the_only_order() {
    let graph = CommandGraph::new(vec![
        CommandNode::new(vec![1], vec![]),
        CommandNode::new(vec![2], vec![0]),
        CommandNode::new(vec![3], vec![1]),
        CommandNode::new(vec![4], vec![2]),
    ]);
    let mut exec = TransportExecutor::new(ScriptedBus::new(), 0x3C, 0x00, 2);
    let mut engine = BacktrackSearchEngine::new(plain(), None, 0);
    assert_eq!(engine.search(&graph, &mut exec, &mut quiet()), Ok(vec![0, 1, 2, 3]));
}

#[test]
fn empty_graph_yields_the_empty_order() {
    let graph = CommandGraph::new(vec![]);
    let mut exec = TransportExecutor::new(ScriptedBus::new(), 0x3C, 0x00, 2);
    let mut engine = BacktrackSearchEngine::new(plain(), None, 0);
    assert_eq!(engine.search(&graph, &mut exec, &mut quiet()), Ok(vec![]));
}

#[test]
fn cyclic_graph_is_incomplete() {
    let graph = CommandGraph::new(vec![CommandNode::new(vec![1], vec![1]), CommandNode::new(vec![2], vec![0])]);
    let mut exec = TransportExecutor::new(ScriptedBus::new(), 0x3C, 0x00, 2);
    let mut engine = BacktrackSearchEngine::new(plain(), None, 0);
    assert_eq!(engine.search(&graph, &mut exec, &mut quiet()), Err(ExplorerError::SequenceIncomplete));
    assert!(exec.bus().written.is_empty());
}

#[test]
fn node_that_always_fails_makes_the_search_incomplete() {
    let graph = diamond();
    let mut bus = ScriptedBus::new();
    bus.reject = vec![vec![0, 0xC0]];
    let mut exec = TransportExecutor::new(bus, 0x3C, 0x00, 2);
    let mut engine = BacktrackSearchEngine::new(plain(), None, 0);
    assert_eq!(engine.search(&graph, &mut exec, &mut quiet()), Err(ExplorerError::SequenceIncomplete));
    // A, B, then C fails below B; back at depth 1, C fails again.
    assert_eq!(exec.bus().written, vec![vec![0, 0xA0], vec![0, 0xB0], vec![0, 0xC0], vec![0, 0xC0]]);
}

#[test]
fn search_reorders_around_a_node_that_fails_once() {
    let graph = diamond();
    let mut bus = ScriptedBus::new();
    bus.reject_once = vec![vec![0, 0xB0]];
    let mut exec = TransportExecutor::new(bus, 0x3C, 0x00, 2);
    let mut engine = BacktrackSearchEngine::new(plain(), None, 0);
    assert_eq!(engine.search(&graph, &mut exec, &mut quiet()), Ok(vec![0, 2, 1, 3]));
    assert_eq!(
        exec.bus().written,
        vec![vec![0, 0xA0], vec![0, 0xB0], vec![0, 0xC0], vec![0, 0xB0], vec![0, 0xD0]]
    );
}

#[test]
fn overlong_node_is_skipped_without_a_write() {
    let graph = CommandGraph::new(vec![CommandNode::new(vec![1, 2, 3], vec![]), CommandNode::new(vec![4], vec![])]);
    let mut exec = TransportExecutor::new(ScriptedBus::new(), 0x3C, 0x00, 2);
    let mut log = BoundedLog::new(LogLevel::Normal, 64);
    let mut engine = BacktrackSearchEngine::new(plain(), None, 0);
    assert_eq!(engine.search(&graph, &mut exec, &mut log), Err(ExplorerError::SequenceIncomplete));
    assert_eq!(exec.bus().written, vec![vec![0, 4]]);
    assert_eq!(log.as_bytes(), b"OVF 0: 01 02 03\nOVF 0: 01 02 03\n");
}

#[test]
fn independent_nodes_are_tried_in_every_order() {
    let graph = independent(3);
    let mut bus = ScriptedBus::new();
    bus.reads = (0..100).map(|_| Ok(vec![0xFF])).collect();
    let mut exec = TransportExecutor::new(bus, 0x3C, 0x00, 2);
    let probe = VerificationProbe::new(vec![0x01]);
    let mut engine = BacktrackSearchEngine::new(policy(VerificationPolicy::EndOfSequence, Dedup::SequenceHash), Some(probe), 16);
    assert_eq!(engine.search(&graph, &mut exec, &mut quiet()), Err(ExplorerError::SequenceIncomplete));
    // 3! complete orders, one probe each.
    assert_eq!(exec.bus().read_count, 6);
    assert_eq!(engine.memo_len(), 6);
    // 3 + 3*2 + 3*2*1 commands were sent on the way, in index order.
    let sent: Vec<u8> = exec.bus().written.iter().map(|frame| frame[1] - 0x10).collect();
    assert_eq!(sent, vec![0, 1, 2, 2, 1, 1, 0, 2, 2, 0, 2, 0, 1, 1, 0]);
}

#[test]
fn remembered_orders_are_not_verified_again() {
    let graph = independent(3);
    let mut bus = ScriptedBus::new();
    bus.reads = (0..6).map(|_| Ok(vec![0xFF])).collect();
    let mut exec = TransportExecutor::new(bus, 0x3C, 0x00, 2);
    let probe = VerificationProbe::new(vec![0x00]);
    let mut engine = BacktrackSearchEngine::new(policy(VerificationPolicy::EndOfSequence, Dedup::SequenceHash), Some(probe), 16);
    assert_eq!(engine.search(&graph, &mut exec, &mut quiet()), Err(ExplorerError::SequenceIncomplete));
    assert_eq!(exec.bus().read_count, 6);
    assert!(engine.remembered(hash_sequence(&vec![0, 1, 2])));
    assert!(engine.remembered(hash_sequence(&vec![2, 1, 0])));
    // The device would pass now, but every order is remembered as failed.
    assert_eq!(engine.search(&graph, &mut exec, &mut quiet()), Err(ExplorerError::SequenceIncomplete));
    assert_eq!(exec.bus().read_count, 6);
}

#[test]
fn without_dedup_a_second_search_verifies_again() {
    let graph = independent(2);
    let mut bus = ScriptedBus::new();
    bus.reads = (0..2).map(|_| Ok(vec![0xFF])).collect();
    let mut exec = TransportExecutor::new(bus, 0x3C, 0x00, 2);
    let probe = VerificationProbe::new(vec![0x00]);
    let mut engine = BacktrackSearchEngine::new(policy(VerificationPolicy::EndOfSequence, Dedup::Off), Some(probe), 16);
    assert_eq!(engine.search(&graph, &mut exec, &mut quiet()), Err(ExplorerError::SequenceIncomplete));
    assert_eq!(engine.memo_len(), 0);
    assert_eq!(engine.search(&graph, &mut exec, &mut quiet()), Ok(vec![0, 1]));
    assert_eq!(exec.bus().read_count, 3);
}

#[test]
fn memo_is_bounded() {
    let graph = independent(3);
    let mut bus = ScriptedBus::new();
    bus.reads = (0..6).map(|_| Err(BusFault)).collect();
    let mut exec = TransportExecutor::new(bus, 0x3C, 0x00, 2);
    let probe = VerificationProbe::new(vec![0x00]);
    let mut engine = BacktrackSearchEngine::new(policy(VerificationPolicy::EndOfSequence, Dedup::SequenceHash), Some(probe), 4);
    assert_eq!(engine.search(&graph, &mut exec, &mut quiet()), Err(ExplorerError::SequenceIncomplete));
    assert_eq!(engine.memo_len(), 4);
}

#[test]
fn end_of_sequence_check_picks_the_order_that_passes() {
    let graph = diamond();
    let mut bus = ScriptedBus::new();
    bus.reads = vec![Ok(vec![0x00, 0x00]), Ok(vec![0xAF, 0x01])];
    let mut exec = TransportExecutor::new(bus, 0x3C, 0x00, 2);
    let probe = VerificationProbe::new(vec![0xAF, 0x01]);
    let mut log = BoundedLog::new(LogLevel::Normal, 64);
    let mut engine = BacktrackSearchEngine::new(policy(VerificationPolicy::EndOfSequence, Dedup::Off), Some(probe), 0);
    assert_eq!(engine.search(&graph, &mut exec, &mut log), Ok(vec![0, 2, 1, 3]));
    assert_eq!(log.as_bytes(), b"FAIL 4:\nPASS 4:\n");
    assert_eq!(exec.bus().read_count, 2);
    assert_eq!(
        exec.bus().written,
        vec![vec![0, 0xA0], vec![0, 0xB0], vec![0, 0xC0], vec![0, 0xD0], vec![0, 0xC0], vec![0, 0xB0], vec![0, 0xD0]]
    );
}

#[test]
fn per_node_check_backtracks_at_once() {
    let graph = independent(2);
    let mut bus = ScriptedBus::new();
    // After node 0: mismatch. After node 1: pass. After node 0 below node 1: pass.
    bus.reads = vec![Ok(vec![9]), Ok(vec![1]), Ok(vec![1])];
    let mut exec = TransportExecutor::new(bus, 0x3C, 0x00, 2);
    let probe = VerificationProbe::new(vec![1]);
    let mut log = BoundedLog::new(LogLevel::Verbose, 128);
    let mut engine = BacktrackSearchEngine::new(policy(VerificationPolicy::PerNode, Dedup::Off), Some(probe), 0);
    assert_eq!(engine.search(&graph, &mut exec, &mut log), Ok(vec![1, 0]));
    assert_eq!(exec.bus().written, vec![vec![0, 0x10], vec![0, 0x11], vec![0, 0x10]]);
    assert_eq!(log.as_bytes(), b"OK 0: 10\nFAIL 0: 10\nOK 1: 11\nPASS 1: 11\nOK 0: 10\nPASS 0: 10\n");
}

#[test]
fn policy_without_a_probe_accepts_the_first_order() {
    let graph = independent(2);
    let mut exec = TransportExecutor::new(ScriptedBus::new(), 0x3C, 0x00, 2);
    let mut engine = BacktrackSearchEngine::new(policy(VerificationPolicy::EndOfSequence, Dedup::SequenceHash), None, 4);
    assert_eq!(engine.search(&graph, &mut exec, &mut quiet()), Ok(vec![0, 1]));
    assert_eq!(exec.bus().read_count, 0);
}

#[test]
fn anchors_pin_the_first_and_the_last_node() {
    let graph = independent(3);
    let mut exec = TransportExecutor::new(ScriptedBus::new(), 0x3C, 0x00, 2);
    let pinned = SearchPolicy { verification: VerificationPolicy::Off, dedup: Dedup::Off, first: Some(2), last: Some(0) };
    let mut engine = BacktrackSearchEngine::new(pinned, None, 0);
    assert_eq!(engine.search(&graph, &mut exec, &mut quiet()), Ok(vec![2, 1, 0]));
    assert_eq!(exec.bus().written, vec![vec![0, 0x12], vec![0, 0x11], vec![0, 0x10]]);
}

#[test]
fn anchor_that_cannot_come_first_makes_the_search_incomplete() {
    let graph = diamond();
    let mut exec = TransportExecutor::new(ScriptedBus::new(), 0x3C, 0x00, 2);
    let pinned = SearchPolicy { verification: VerificationPolicy::Off, dedup: Dedup::Off, first: Some(1), last: None };
    let mut engine = BacktrackSearchEngine::new(pinned, None, 0);
    assert_eq!(engine.search(&graph, &mut exec, &mut quiet()), Err(ExplorerError::SequenceIncomplete));
    assert!(exec.bus().written.is_empty());
}

#[test]
fn sequence_hash_values() {
    assert_eq!(hash_sequence(&vec![]), 7);
    assert_eq!(hash_sequence(&vec![0]), 918);
    assert_eq!(hash_sequence(&vec![0, 1]), 120260);
    assert_eq!(hash_sequence(&vec![1, 0]), 120390);
    assert_eq!(hash_sequence(&vec![4294967291]), 918);
}

/// A bus that rejects the frame `gated` until it has accepted the frame `key`.
struct GatedBus {
    written: Vec<(Vec<u8>, bool)>,
    gated: Vec<u8>,
    key: Vec<u8>,
    open: bool,
}

impl Transport for GatedBus {
    fn write(&mut self, _address: u8, bytes: &[u8]) -> Result<(), BusFault> {
        let accepted = bytes != self.gated.as_slice() || self.open;
        if accepted && bytes == self.key.as_slice() {
            self.open = true;
        }
        self.written.push((bytes.to_vec(), accepted));
        if accepted {
            Ok(())
        } else {
            Err(BusFault)
        }
    }

    fn read(&mut self, _address: u8, len: usize) -> Result<Vec<u8>, BusFault> {
        Ok(vec![0; len])
    }
}

#[test]
fn node_refused_until_another_was_taken_comes_second() {
    let graph = CommandGraph::new(vec![CommandNode::new(vec![0xAE], vec![]), CommandNode::new(vec![0xAF], vec![])]);
    let bus = GatedBus { written: vec![], gated: vec![0x00, 0xAE], key: vec![0x00, 0xAF], open: false };
    let mut exec = TransportExecutor::new(bus, 0x3C, 0x00, 2);
    let mut engine = BacktrackSearchEngine::new(plain(), None, 0);
    assert_eq!(engine.search(&graph, &mut exec, &mut quiet()), Ok(vec![1, 0]));
    assert_eq!(
        exec.bus().written,
        vec![(vec![0x00, 0xAE], false), (vec![0x00, 0xAF], true), (vec![0x00, 0xAE], true)]
    );
}

#[test]
fn overlong_second_node_leaves_one_write() {
    let graph = CommandGraph::new(vec![
        CommandNode::new(vec![0xAE], vec![]),
        CommandNode::new(vec![0x81, 0x2F, 0x00], vec![]),
    ]);
    let mut exec = TransportExecutor::new(ScriptedBus::new(), 0x3C, 0x00, 2);
    let mut engine = BacktrackSearchEngine::new(plain(), None, 0);
    assert_eq!(engine.search(&graph, &mut exec, &mut quiet()), Err(ExplorerError::SequenceIncomplete));
    assert_eq!(exec.bus().written, vec![vec![0x00, 0xAE]]);
}
