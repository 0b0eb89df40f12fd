use init_explorer::display::{
    clear_display, detect, init_commands, init_sh1107, is_display_address, page_address_command, send_cmd, Detection,
    SCAN_FIRST, SCAN_LAST,
};
use init_explorer::error::{ExplorerError, TransportError};
use init_explorer::graph::{CommandGraph, CommandNode};
use init_explorer::log::{BoundedLog, LogLevel, Outcome};
use init_explorer::probe::{VerificationOutcome, VerificationProbe};
use init_explorer::serial::{LogSink, SerialWriter, SinkFault};
use init_explorer::topo::{conclude_run, TopoSortEngine};
use init_explorer::transport::{BusFault, Transport, TransportExecutor};

struct PlainBus {
    written: Vec<Vec<u8>>,
    reject: Vec<Vec<u8>>,
    state: Vec<u8>,
}

impl PlainBus {
    fn new() -> Self {
        PlainBus { written: Vec::new(), reject: Vec::new(), state: Vec::new() }
    }
}

impl Transport for PlainBus {
    fn write(&mut self, _address: u8, bytes: &[u8]) -> Result<(), BusFault> {
        self.written.push(bytes.to_vec());
        if self.reject.iter().any(|f| f.as_slice() == bytes) {
            Err(BusFault)
        } else {
            Ok(())
        }
    }

    fn read(&mut self, _address: u8, _len: usize) -> Result<Vec<u8>, BusFault> {
        Ok(self.state.clone())
    }
}

/// A sink that keeps what it takes and refuses the byte `refuse`.
struct Tape {
    taken: Vec<u8>,
    refuse: Option<u8>,
    flushes: usize,
}

impl Tape {
    fn new(refuse: Option<u8>) -> Self {
        Tape { taken: Vec::new(), refuse, flushes: 0 }
    }
}

impl LogSink for Tape {
    fn write_byte(&mut self, byte: u8) -> Result<(), SinkFault> {
        if self.refuse == Some(byte) {
            Err(SinkFault)
        } else {
            self.taken.push(byte);
            Ok(())
        }
    }

    fn flush(&mut self) -> Result<(), SinkFault> {
        self.flushes += 1;
        Ok(())
    }
}

#[test]
fn init_table_is_the_controller_sequence() {
    assert_eq!(
        init_commands(),
        vec![
            0xAE, 0xDC, 0x00, 0x81, 0x2F, 0x20, 0xA0, 0xC0, 0xA4, 0xA6, 0xA8, 0x7F, 0xD3, 0x60, 0xD5, 0x51, 0xD9, 0x22,
            0xDB, 0x35, 0xAD, 0x8A, 0xAF
        ]
    );
}

#[test]
fn init_sends_every_command_behind_the_prefix() {
    let mut exec = TransportExecutor::new(PlainBus::new(), 0x3C, 0x00, 1);
    assert_eq!(init_sh1107(&mut exec, &mut BoundedLog::new(LogLevel::Quiet, 0)), Ok(23));
    let written = &exec.bus().written;
    assert_eq!(written.len(), 23);
    assert_eq!(written[0], vec![0x00, 0xAE]);
    assert_eq!(written[1], vec![0x00, 0xDC]);
    assert_eq!(written[22], vec![0x00, 0xAF]);
}

#[test]
fn init_goes_on_after_a_rejected_command() {
    let mut bus = PlainBus::new();
    bus.reject = vec![vec![0x00, 0x00], vec![0x00, 0x81]];
    let mut exec = TransportExecutor::new(bus, 0x3C, 0x00, 4);
    assert_eq!(init_sh1107(&mut exec, &mut BoundedLog::new(LogLevel::Quiet, 0)), Ok(21));
    assert_eq!(exec.bus().written.len(), 23);
}

#[test]
fn init_needs_room_for_one_byte() {
    let mut exec = TransportExecutor::new(PlainBus::new(), 0x3C, 0x00, 0);
    assert_eq!(init_sh1107(&mut exec, &mut BoundedLog::new(LogLevel::Quiet, 0)), Err(TransportError::BufferOverflow));
    assert_eq!(send_cmd(&mut exec, &mut BoundedLog::new(LogLevel::Quiet, 0), 0xAE), Err(TransportError::BufferOverflow));
    assert!(exec.bus().written.is_empty());
}

#[test]
fn single_command_is_framed() {
    let mut bus = PlainBus::new();
    bus.reject = vec![vec![0x00, 0xA1]];
    let mut exec = TransportExecutor::new(bus, 0x3D, 0x00, 1);
    let mut log = BoundedLog::new(LogLevel::Verbose, 64);
    assert_eq!(send_cmd(&mut exec, &mut log, 0xAF), Ok(()));
    assert_eq!(log.as_bytes(), b"Sent cmd 0xAF to 0x3D\n");
    assert_eq!(send_cmd(&mut exec, &mut log, 0xA1), Err(TransportError::ExecutionFailed));
    assert_eq!(log.as_bytes(), b"Sent cmd 0xAF to 0x3D\nFailed cmd 0xA1 to 0x3D\n");
    assert_eq!(exec.bus().written, vec![vec![0x00, 0xAF], vec![0x00, 0xA1]]);
}

#[test]
fn page_address_keeps_the_low_nibble() {
    assert_eq!(page_address_command(0), 0xB0);
    assert_eq!(page_address_command(7), 0xB7);
    assert_eq!(page_address_command(15), 0xBF);
    assert_eq!(page_address_command(16), 0xB0);
    assert_eq!(page_address_command(0xFF), 0xBF);
}

#[test]
fn clear_writes_three_frames_per_page() {
    let mut exec = TransportExecutor::new(PlainBus::new(), 0x3C, 0x00, 128);
    assert_eq!(clear_display(&mut exec, &mut BoundedLog::new(LogLevel::Quiet, 0)), Ok(48));
    let written = &exec.bus().written;
    assert_eq!(written.len(), 48);
    assert_eq!(written[0], vec![0x00, 0xB0]);
    assert_eq!(written[1], vec![0x00, 0x00, 0x10]);
    let mut data = vec![0x40];
    data.extend(vec![0u8; 128]);
    assert_eq!(written[2], data);
    assert_eq!(written[3], vec![0x00, 0xB1]);
    assert_eq!(written[45], vec![0x00, 0xBF]);
    assert_eq!(written[47], data);
}

#[test]
fn clear_counts_what_the_bus_accepted() {
    let mut bus = PlainBus::new();
    bus.reject = vec![vec![0x00, 0x00, 0x10], vec![0x00, 0xB3]];
    let mut exec = TransportExecutor::new(bus, 0x3C, 0x00, 200);
    assert_eq!(clear_display(&mut exec, &mut BoundedLog::new(LogLevel::Quiet, 0)), Ok(48 - 16 - 1));
    assert_eq!(exec.bus().written.len(), 48);
}

#[test]
fn clear_needs_room_for_a_page() {
    let mut exec = TransportExecutor::new(PlainBus::new(), 0x3C, 0x00, 127);
    assert_eq!(clear_display(&mut exec, &mut BoundedLog::new(LogLevel::Quiet, 0)), Err(TransportError::BufferOverflow));
    assert!(exec.bus().written.is_empty());
}

#[test]
fn data_frames_take_their_own_control_byte() {
    let mut exec = TransportExecutor::new(PlainBus::new(), 0x3C, 0x00, 2);
    assert_eq!(exec.execute_with(0x40, &[1, 2]), Ok(()));
    assert_eq!(exec.execute_with(0x40, &[1, 2, 3]), Err(TransportError::BufferOverflow));
    assert_eq!(exec.bus().written, vec![vec![0x40, 1, 2]]);
}

#[test]
fn writer_hands_text_over_byte_by_byte() {
    let mut writer = SerialWriter::new(Tape::new(None));
    assert_eq!(writer.write_str("Init OK"), Ok(()));
    assert_eq!(writer.write_bytes(&[13, 10]), Ok(()));
    assert_eq!(writer.write_byte(33), Ok(()));
    assert_eq!(writer.sink().taken, b"Init OK\r\n!".to_vec());
    assert_eq!(writer.drain(), Ok(()));
    assert_eq!(writer.into_sink().flushes, 1);
}

#[test]
fn writer_stops_at_the_first_refused_byte() {
    let mut writer = SerialWriter::new(Tape::new(Some(b'c')));
    assert_eq!(writer.write_str("abcde"), Err(SinkFault));
    assert_eq!(writer.sink().taken, b"ab".to_vec());
    assert_eq!(writer.write_str(""), Ok(()));
}

#[test]
fn flush_transfers_the_text_and_keeps_it() {
    let mut log = BoundedLog::new(LogLevel::Verbose, 64);
    log.record(LogLevel::Verbose, 0, &[0xAE], Outcome::Sent);
    log.record(LogLevel::Normal, 1, &[0xAF], Outcome::Rejected);
    let mut writer = SerialWriter::new(Tape::new(None));
    assert_eq!(log.flush(&mut writer), 19);
    assert_eq!(log.as_bytes(), b"OK 0: AE\nNAK 1: AF\n");
    assert_eq!(writer.sink().taken, b"OK 0: AE\nNAK 1: AF\n".to_vec());
    assert_eq!(writer.sink().flushes, 1);
    assert_eq!(log.flush(&mut writer), 19);
    assert_eq!(writer.sink().taken.len(), 38);
    log.clear();
    assert!(log.as_bytes().is_empty());
    assert_eq!(log.flush(&mut writer), 0);
    assert_eq!(writer.sink().flushes, 3);
    log.record(LogLevel::Normal, 2, &[], Outcome::Verified);
    assert_eq!(log.as_bytes(), b"PASS 2:\n");
}

#[test]
fn flush_passes_over_refused_bytes() {
    let mut log = BoundedLog::new(LogLevel::Verbose, 64);
    log.record(LogLevel::Verbose, 10, &[0x10], Outcome::Sent);
    let mut writer = SerialWriter::new(Tape::new(Some(b'1')));
    assert_eq!(log.flush(&mut writer), 8);
    assert_eq!(writer.sink().taken, b"OK 0: 0\n".to_vec());
    assert_eq!(log.as_bytes(), b"OK 10: 10\n");
}

#[test]
fn verified_run_reports_a_mismatch() {
    let graph = CommandGraph::new(vec![CommandNode::new(vec![0xAE], vec![]), CommandNode::new(vec![0xAF], vec![0])]);
    let mut bus = PlainBus::new();
    bus.state = vec![0x01];
    let mut exec = TransportExecutor::new(bus, 0x3C, 0x00, 1);
    let mut log = BoundedLog::new(LogLevel::Normal, 64);
    let wrong = VerificationProbe::new(vec![0x02]);
    assert_eq!(TopoSortEngine::run_verified(&graph, &mut exec, &mut log, &wrong), Err(ExplorerError::VerificationFailed));
    assert_eq!(log.as_bytes(), b"FAIL 2:\n");
    let right = VerificationProbe::new(vec![0x01]);
    assert_eq!(TopoSortEngine::run_verified(&graph, &mut exec, &mut log, &right), Ok(vec![0, 1]));
    assert_eq!(log.as_bytes(), b"FAIL 2:\nPASS 2:\n");
    assert_eq!(exec.bus().written.len(), 4);
}

#[test]
fn verified_run_keeps_the_errors_of_the_run() {
    let graph = CommandGraph::new(vec![CommandNode::new(vec![0xAE], vec![1]), CommandNode::new(vec![0xAF], vec![0])]);
    let mut exec = TransportExecutor::new(PlainBus::new(), 0x3C, 0x00, 1);
    let mut log = BoundedLog::new(LogLevel::Normal, 64);
    let probe = VerificationProbe::new(vec![]);
    assert_eq!(TopoSortEngine::run_verified(&graph, &mut exec, &mut log, &probe), Err(ExplorerError::DependencyCycle));
    assert!(log.as_bytes().is_empty());
}

#[test]
fn verdict_decides_a_complete_run() {
    assert_eq!(conclude_run(vec![2, 0, 1], VerificationOutcome::Pass), Ok(vec![2, 0, 1]));
    assert_eq!(conclude_run(vec![2, 0, 1], VerificationOutcome::Fail), Err(ExplorerError::VerificationFailed));
}

#[test]
fn detection_goes_by_the_answer_and_the_address() {
    let mut display = TransportExecutor::new(PlainBus::new(), 0x3C, 0x00, 1);
    assert_eq!(detect(&mut display), Detection::Display);
    assert_eq!(display.bus().written, vec![Vec::<u8>::new()]);
    let mut other = TransportExecutor::new(PlainBus::new(), 0x50, 0x00, 1);
    assert_eq!(detect(&mut other), Detection::Other);
    let mut silent = PlainBus::new();
    silent.reject = vec![vec![]];
    let mut absent = TransportExecutor::new(silent, 0x3D, 0x00, 1);
    assert_eq!(detect(&mut absent), Detection::Absent);
    assert!(!absent.ping());
    assert_eq!(absent.bus().written.len(), 2);
}

#[test]
fn display_answers_at_two_addresses() {
    assert!(is_display_address(0x3C));
    assert!(is_display_address(0x3D));
    assert!(!is_display_address(0x3B));
    assert!(!is_display_address(0x3E));
    assert_eq!((SCAN_FIRST, SCAN_LAST), (0x03, 0x77));
}

/// A sink that takes every byte and never drains.
struct Clogged {
    asked: usize,
}

impl LogSink for Clogged {
    fn write_byte(&mut self, _byte: u8) -> Result<(), SinkFault> {
        Ok(())
    }

    fn flush(&mut self) -> Result<(), SinkFault> {
        self.asked += 1;
        Err(SinkFault)
    }
}

#[test]
fn drain_hands_the_answer_of_the_sink_back() {
    let mut clogged = SerialWriter::new(Clogged { asked: 0 });
    assert_eq!(clogged.drain(), Err(SinkFault));
    assert_eq!(clogged.drain(), Err(SinkFault));
    assert_eq!(clogged.sink().asked, 2);
    let mut open = SerialWriter::new(Tape::new(None));
    assert_eq!(open.drain(), Ok(()));
    assert_eq!(open.sink().flushes, 1);
    assert!(open.sink().taken.is_empty());
}

#[test]
fn flush_asks_a_clogged_sink_to_drain_once() {
    let mut log = BoundedLog::new(LogLevel::Normal, 32);
    log.record(LogLevel::Normal, 0, &[], Outcome::Rejected);
    let mut writer = SerialWriter::new(Clogged { asked: 0 });
    assert_eq!(log.flush(&mut writer), 7);
    assert_eq!(writer.sink().asked, 1);
    assert_eq!(log.as_bytes(), b"NAK 0:\n");
}

#[test]
fn init_records_one_line_for_each_command() {
    let mut exec = TransportExecutor::new(PlainBus::new(), 0x3C, 0x00, 1);
    let mut log = BoundedLog::new(LogLevel::Verbose, 1024);
    assert_eq!(init_sh1107(&mut exec, &mut log), Ok(23));
    let text = String::from_utf8(log.as_bytes().to_vec()).unwrap();
    let lines: Vec<&str> = text.lines().collect();
    assert_eq!(lines.len(), 23);
    assert_eq!(lines[0], "Sent cmd 0xAE to 0x3C");
    assert_eq!(lines[2], "Sent cmd 0x00 to 0x3C");
    assert_eq!(lines[22], "Sent cmd 0xAF to 0x3C");
    assert!(lines.iter().all(|line| !line.starts_with("Failed cmd")));
}

#[test]
fn init_records_only_failures_at_the_normal_level() {
    let mut bus = PlainBus::new();
    bus.reject = vec![vec![0x00, 0x81]];
    let mut exec = TransportExecutor::new(bus, 0x3D, 0x00, 1);
    let mut log = BoundedLog::new(LogLevel::Normal, 1024);
    assert_eq!(init_sh1107(&mut exec, &mut log), Ok(22));
    assert_eq!(log.as_bytes(), b"Failed cmd 0x81 to 0x3D\n");
    let mut small = TransportExecutor::new(PlainBus::new(), 0x3D, 0x00, 0);
    let mut kept = BoundedLog::new(LogLevel::Verbose, 64);
    assert_eq!(init_sh1107(&mut small, &mut kept), Err(TransportError::BufferOverflow));
    assert!(kept.as_bytes().is_empty());
    assert_eq!(send_cmd(&mut small, &mut kept, 0xAE), Err(TransportError::BufferOverflow));
    assert_eq!(kept.as_bytes(), b"Failed cmd 0xAE to 0x3D\n");
}

/// A bus that records every frame and rejects them all.
struct DeafBus {
    written: Vec<Vec<u8>>,
}

impl Transport for DeafBus {
    fn write(&mut self, _address: u8, bytes: &[u8]) -> Result<(), BusFault> {
        self.written.push(bytes.to_vec());
        Err(BusFault)
    }

    fn read(&mut self, _address: u8, _len: usize) -> Result<Vec<u8>, BusFault> {
        Err(BusFault)
    }
}

#[test]
fn clear_goes_on_and_records_every_failure() {
    let mut exec = TransportExecutor::new(DeafBus { written: vec![] }, 0x3C, 0x00, 128);
    let mut log = BoundedLog::new(LogLevel::Normal, 4096);
    assert_eq!(clear_display(&mut exec, &mut log), Ok(0));
    let written = &exec.bus().written;
    assert_eq!(written.len(), 48);
    assert_eq!(written[45], vec![0x00, 0xBF]);
    assert_eq!(written[46], vec![0x00, 0x00, 0x10]);
    assert_eq!(written[47].len(), 129);
    assert_eq!(written[47][0], 0x40);
    let text = String::from_utf8(log.as_bytes().to_vec()).unwrap();
    let lines: Vec<&str> = text.lines().collect();
    assert_eq!(lines.len(), 49);
    assert_eq!(lines[0], "Failed to set page address 0");
    assert_eq!(lines[1], "Failed to set column address");
    assert_eq!(lines[2], "Failed to clear page 0");
    assert_eq!(lines[45], "Failed to set page address 15");
    assert_eq!(lines[47], "Failed to clear page 15");
    assert_eq!(lines[48], "Display cleared");
}

#[test]
fn clear_that_succeeds_records_the_closing_line_only() {
    let mut exec = TransportExecutor::new(PlainBus::new(), 0x3C, 0x00, 128);
    let mut log = BoundedLog::new(LogLevel::Verbose, 64);
    assert_eq!(clear_display(&mut exec, &mut log), Ok(48));
    assert_eq!(log.as_bytes(), b"Display cleared\n");
    let mut small = TransportExecutor::new(PlainBus::new(), 0x3C, 0x00, 127);
    assert_eq!(clear_display(&mut small, &mut log), Err(TransportError::BufferOverflow));
    assert_eq!(log.as_bytes(), b"Display cleared\n");
}

#[test]
fn lines_are_written_as_they_are() {
    let mut log = BoundedLog::new(LogLevel::Normal, 12);
    log.write_line(LogLevel::Normal, b"abc\n");
    log.write_line(LogLevel::Verbose, b"dropped\n");
    log.write_line(LogLevel::Normal, b"too long for it\n");
    log.write_line(LogLevel::Normal, b"12345678");
    assert_eq!(log.as_bytes(), b"abc\n12345678");
}
