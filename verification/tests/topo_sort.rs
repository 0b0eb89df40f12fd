use init_explorer::error::{ExplorerError, TransportError};
use init_explorer::graph::{CommandGraph, CommandNode};
use init_explorer::kahn::KahnState;
use init_explorer::log::{BoundedLog, LogLevel};
use init_explorer::state::SearchState;
use init_explorer::topo::TopoSortEngine;
use init_explorer::transport::{frame_command, BusFault, Transport, TransportExecutor};

/// A bus that records every frame and rejects the frames listed in `reject`.
struct RecordingBus {
    written: Vec<Vec<u8>>,
    reject: Vec<Vec<u8>>,
}

impl RecordingBus {
    fn new(reject: Vec<Vec<u8>>) -> Self {
        RecordingBus { written: Vec::new(), reject }
    }
}

impl Transport for RecordingBus {
    fn write(&mut self, _address: u8, bytes: &[u8]) -> Result<(), BusFault> {
        self.written.push(bytes.to_vec());
        if self.reject.iter().any(|f| f.as_slice() == bytes) {
            Err(BusFault)
        } else {
            Ok(())
        }
    }

    fn read(&mut self, _address: u8, len: usize) -> Result<Vec<u8>, BusFault> {
        Ok(vec![0; len])
    }
}

fn diamond() -> CommandGraph {
    CommandGraph::new(vec![
        CommandNode::new(vec![0xA0], vec![]),
        CommandNode::new(vec![0xB0], vec![0]),
        CommandNode::new(vec![0xC0], vec![0]),
        CommandNode::new(vec![0xD0], vec![1, 2]),
    ])
}

fn chain(n: usize) -> CommandGraph {
    let mut nodes = Vec::new();
    for i in 0..n {
        let deps = if i == 0 { vec![] } else { vec![i - 1] };
        nodes.push(CommandNode::new(vec![i as u8], deps));
    }
    CommandGraph::new(nodes)
}

#[test]
fn diamond_is_sent_in_fifo_order() {
    let graph = diamond();
    let mut exec = TransportExecutor::new(RecordingBus::new(vec![]), 0x3C, 0x00, 2);
    let mut log = BoundedLog::new(LogLevel::Quiet, 64);
    let r = TopoSortEngine::run(&graph, &mut exec, &mut log);
    assert_eq!(r, Ok(vec![0, 1, 2, 3]));
    let bus = exec.into_bus();
    assert_eq!(bus.written, vec![vec![0x00, 0xA0], vec![0x00, 0xB0], vec![0x00, 0xC0], vec![0x00, 0xD0]]);
}

#[test]
fn fifo_order_follows_the_queue_not_the_index() {
    // Node 1 waits for node 3; node 2 is ready at once and so goes first.
    let graph = CommandGraph::new(vec![
        CommandNode::new(vec![0], vec![]),
        CommandNode::new(vec![1], vec![3]),
        CommandNode::new(vec![2], vec![]),
        CommandNode::new(vec![3], vec![0]),
    ]);
    assert_eq!(graph.topo_order(), Ok(vec![0, 2, 3, 1]));
}

#[test]
fn cycle_is_reported() {
    let graph = CommandGraph::new(vec![
        CommandNode::new(vec![1], vec![]),
        CommandNode::new(vec![2], vec![2]),
        CommandNode::new(vec![3], vec![1]),
    ]);
    let mut exec = TransportExecutor::new(RecordingBus::new(vec![]), 0x3C, 0x00, 2);
    let mut log = BoundedLog::new(LogLevel::Quiet, 64);
    let r = TopoSortEngine::run(&graph, &mut exec, &mut log);
    assert_eq!(r, Err(ExplorerError::DependencyCycle));
    assert_eq!(exec.into_bus().written, vec![vec![0x00, 1]]);
    assert_eq!(graph.validate(), Err(ExplorerError::DependencyCycle));
    assert_eq!(graph.topo_order(), Err(ExplorerError::DependencyCycle));
}

#[test]
fn self_dependency_is_a_cycle() {
    let graph = CommandGraph::new(vec![CommandNode::new(vec![1], vec![0])]);
    assert_eq!(graph.validate(), Err(ExplorerError::DependencyCycle));
}

#[test]
fn dependency_out_of_range_is_rejected() {
    let graph = CommandGraph::new(vec![CommandNode::new(vec![1], vec![]), CommandNode::new(vec![2], vec![7])]);
    assert_eq!(graph.validate(), Err(ExplorerError::DependencyCycle));
}

#[test]
fn acyclic_graphs_validate() {
    assert_eq!(diamond().validate(), Ok(()));
    assert_eq!(chain(5).validate(), Ok(()));
    assert_eq!(CommandGraph::new(vec![]).validate(), Ok(()));
    assert_eq!(CommandGraph::new(vec![]).topo_order(), Ok(vec![]));
}

#[test]
fn chain_is_sent_in_index_order() {
    let graph = chain(6);
    let mut exec = TransportExecutor::new(RecordingBus::new(vec![]), 0x3C, 0x00, 1);
    let mut log = BoundedLog::new(LogLevel::Quiet, 0);
    assert_eq!(TopoSortEngine::run(&graph, &mut exec, &mut log), Ok(vec![0, 1, 2, 3, 4, 5]));
    assert_eq!(graph.topo_order(), Ok(vec![0, 1, 2, 3, 4, 5]));
}

#[test]
fn run_stops_at_the_first_rejected_command() {
    let graph = diamond();
    let mut exec = TransportExecutor::new(RecordingBus::new(vec![vec![0x00, 0xB0]]), 0x3C, 0x00, 2);
    let mut log = BoundedLog::new(LogLevel::Normal, 64);
    let r = TopoSortEngine::run(&graph, &mut exec, &mut log);
    assert_eq!(r, Err(ExplorerError::ExecutionFailed));
    assert_eq!(exec.bus().written, vec![vec![0x00, 0xA0], vec![0x00, 0xB0]]);
    assert_eq!(log.as_bytes(), b"NAK 1: B0\n");
}

#[test]
fn run_stops_at_an_overlong_command() {
    let graph = CommandGraph::new(vec![
        CommandNode::new(vec![1], vec![]),
        CommandNode::new(vec![2, 3, 4], vec![0]),
        CommandNode::new(vec![5], vec![1]),
    ]);
    let mut exec = TransportExecutor::new(RecordingBus::new(vec![]), 0x3C, 0x00, 2);
    let mut log = BoundedLog::new(LogLevel::Verbose, 64);
    let r = TopoSortEngine::run(&graph, &mut exec, &mut log);
    assert_eq!(r, Err(ExplorerError::BufferOverflow));
    assert_eq!(exec.bus().written, vec![vec![0x00, 1]]);
    assert_eq!(log.as_bytes(), b"OK 0: 01\nOVF 1: 02 03 04\n");
}

#[test]
fn overlong_command_is_refused_before_the_bus() {
    let mut exec = TransportExecutor::new(RecordingBus::new(vec![]), 0x3C, 0x00, 2);
    assert_eq!(exec.execute(&[1, 2, 3]), Err(TransportError::BufferOverflow));
    assert!(exec.bus().written.is_empty());
    assert_eq!(exec.execute(&[1, 2]), Ok(()));
    assert_eq!(exec.bus().written, vec![vec![0x00, 1, 2]]);
    assert_eq!(exec.max_cmd_len(), 2);
    assert_eq!(exec.address(), 0x3C);
}

#[test]
fn rejected_frame_is_an_execution_failure() {
    let mut exec = TransportExecutor::new(RecordingBus::new(vec![vec![0x80, 9]]), 0x3D, 0x80, 4);
    assert_eq!(exec.execute(&[9]), Err(TransportError::ExecutionFailed));
    assert_eq!(exec.execute(&[]), Ok(()));
    assert_eq!(exec.bus().written, vec![vec![0x80, 9], vec![0x80]]);
}

#[test]
fn overflow_leaves_the_search_state_unmodified() {
    let graph = CommandGraph::new(vec![CommandNode::new(vec![1, 2, 3], vec![])]);
    let mut exec = TransportExecutor::new(RecordingBus::new(vec![]), 0x3C, 0x00, 2);
    let mut state = SearchState::new(&graph);
    assert!(state.eligible(&graph, 0));
    let r = state.try_commit(&graph, &mut exec, 0);
    assert_eq!(r, Err(TransportError::BufferOverflow));
    assert!(!state.is_sent(0));
    assert_eq!(state.len(), 0);
    assert!(state.sequence().is_empty());
    assert!(exec.bus().written.is_empty());
}

#[test]
fn commit_marks_and_appends() {
    let graph = diamond();
    let mut exec = TransportExecutor::new(RecordingBus::new(vec![vec![0x00, 0xC0]]), 0x3C, 0x00, 2);
    let mut state = SearchState::new(&graph);
    assert!(!state.eligible(&graph, 1));
    assert_eq!(state.try_commit(&graph, &mut exec, 0), Ok(()));
    assert!(state.is_sent(0));
    assert!(!state.eligible(&graph, 0));
    assert!(state.eligible(&graph, 1));
    assert_eq!(state.try_commit(&graph, &mut exec, 2), Err(TransportError::ExecutionFailed));
    assert!(!state.is_sent(2));
    assert_eq!(state.sequence(), &vec![0]);
    state.push(&graph, 1);
    assert_eq!(state.sequence(), &vec![0, 1]);
    state.pop(&graph);
    assert!(!state.is_sent(1));
    assert_eq!(state.into_sequence(), vec![0]);
}

#[test]
fn frames_carry_the_prefix() {
    assert_eq!(frame_command(0x00, &[0xAE], 1), Ok(vec![0x00, 0xAE]));
    assert_eq!(frame_command(0x40, &[], 0), Ok(vec![0x40]));
    assert_eq!(frame_command(0x00, &[1, 2, 3], 2), Err(TransportError::BufferOverflow));
}

#[test]
fn graph_reports_its_nodes() {
    let graph = diamond();
    assert_eq!(graph.len(), 4);
    assert_eq!(graph.node(3).deps, vec![1, 2]);
    assert_eq!(graph.node(3).bytes, vec![0xD0]);
    assert_eq!(graph.max_cmd_len(), 1);
    assert_eq!(CommandGraph::new(vec![]).max_cmd_len(), 0);
    let wide = CommandGraph::new(vec![CommandNode::new(vec![1, 2], vec![]), CommandNode::new(vec![], vec![])]);
    assert_eq!(wide.max_cmd_len(), 2);
    assert!(wide.deps_sent(1, &vec![false, false]));
    assert!(!diamond().deps_sent(3, &vec![true, true, false, false]));
}

#[test]
fn errors_have_texts() {
    assert_eq!(ExplorerError::DependencyCycle.describe(), "dependency cycle");
    assert_eq!(ExplorerError::BufferOverflow.describe(), "buffer overflow");
    assert_eq!(ExplorerError::ExecutionFailed.describe(), "execution failed");
    assert_eq!(ExplorerError::VerificationFailed.describe(), "verification failed");
    assert_eq!(ExplorerError::SequenceIncomplete.describe(), "sequence incomplete");
    assert_eq!(ExplorerError::from_transport(TransportError::BufferOverflow), ExplorerError::BufferOverflow);
    assert_eq!(ExplorerError::from_transport(TransportError::ExecutionFailed), ExplorerError::ExecutionFailed);
}

/// A bus that records the address of every transfer.
struct AddressBus {
    writes: Vec<u8>,
    reads: Vec<u8>,
}

impl Transport for AddressBus {
    fn write(&mut self, address: u8, _bytes: &[u8]) -> Result<(), BusFault> {
        self.writes.push(address);
        Ok(())
    }

    fn read(&mut self, address: u8, len: usize) -> Result<Vec<u8>, BusFault> {
        self.reads.push(address);
        Ok(vec![0; len])
    }
}

#[test]
fn transfers_go_to_the_configured_address() {
    let mut exec = TransportExecutor::new(AddressBus { writes: vec![], reads: vec![] }, 0x3D, 0x00, 4);
    assert_eq!(exec.execute(&[1]), Ok(()));
    assert_eq!(exec.execute_with(0x40, &[2]), Ok(()));
    assert_eq!(exec.probe(2), Ok(vec![0, 0]));
    assert_eq!(exec.bus().writes, vec![0x3D, 0x3D]);
    assert_eq!(exec.bus().reads, vec![0x3D]);
}

#[test]
fn kahn_state_advances_node_by_node() {
    let graph = diamond();
    let mut state = KahnState::new(&graph);
    assert_eq!(state.sent_len(&graph), 0);
    assert_eq!(state.front(&graph), Some(0));
    state.commit(&graph);
    assert_eq!(state.front(&graph), Some(1));
    state.commit(&graph);
    assert_eq!(state.front(&graph), Some(2));
    state.commit(&graph);
    assert_eq!(state.sent_len(&graph), 3);
    assert_eq!(state.front(&graph), Some(3));
    state.commit(&graph);
    assert_eq!(state.front(&graph), None);
    assert_eq!(state.into_order(&graph), vec![0, 1, 2, 3]);
}

#[test]
fn kahn_state_runs_empty_before_a_cycle() {
    let graph = CommandGraph::new(vec![
        CommandNode::new(vec![1], vec![]),
        CommandNode::new(vec![2], vec![2]),
        CommandNode::new(vec![3], vec![1]),
    ]);
    let mut state = KahnState::new(&graph);
    assert_eq!(state.front(&graph), Some(0));
    state.commit(&graph);
    assert_eq!(state.front(&graph), None);
    assert_eq!(state.into_order(&graph), vec![0]);
}

#[test]
fn prerequisite_listed_twice_counts_once() {
    let graph = CommandGraph::new(vec![CommandNode::new(vec![1], vec![]), CommandNode::new(vec![2], vec![0, 0])]);
    assert_eq!(graph.topo_order(), Ok(vec![0, 1]));
}

#[test]
fn run_refuses_a_single_overlong_command() {
    let graph = CommandGraph::new(vec![CommandNode::new(vec![0x81, 0x2F, 0x00], vec![])]);
    let mut exec = TransportExecutor::new(RecordingBus::new(vec![]), 0x3C, 0x00, 2);
    let mut log = BoundedLog::new(LogLevel::Normal, 64);
    assert_eq!(TopoSortEngine::run(&graph, &mut exec, &mut log), Err(ExplorerError::BufferOverflow));
    assert!(exec.bus().written.is_empty());
    assert_eq!(log.as_bytes(), b"OVF 0: 81 2F 00\n");
}
