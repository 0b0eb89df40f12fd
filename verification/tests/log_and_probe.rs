use init_explorer::error::TransportError;
use init_explorer::log::{level_admits, render, BoundedLog, LogLevel, Outcome};
use init_explorer::probe::{bytes_equal, VerificationOutcome, VerificationProbe};
use init_explorer::transport::{judge_read, BusFault, Transport, TransportExecutor};

struct ReadBus {
    answer: Result<Vec<u8>, BusFault>,
    asked: Vec<usize>,
}

impl Transport for ReadBus {
    fn write(&mut self, _address: u8, _bytes: &[u8]) -> Result<(), BusFault> {
        Ok(())
    }

    fn read(&mut self, _address: u8, len: usize) -> Result<Vec<u8>, BusFault> {
        self.asked.push(len);
        self.answer.clone()
    }
}

#[test]
fn lines_are_rendered_exactly() {
    assert_eq!(render(3, &[0x00, 0xAE], Outcome::Sent), b"OK 3: 00 AE\n".to_vec());
    assert_eq!(render(0, &[], Outcome::Rejected), b"NAK 0:\n".to_vec());
    assert_eq!(render(120, &[0x9F], Outcome::Overflow), b"OVF 120: 9F\n".to_vec());
    assert_eq!(render(10, &[0xFF, 0x0A], Outcome::Verified), b"PASS 10: FF 0A\n".to_vec());
    assert_eq!(render(65535, &[0x10], Outcome::Mismatch), b"FAIL 65535: 10\n".to_vec());
}

#[test]
fn levels_gate_events() {
    assert!(!level_admits(LogLevel::Quiet, LogLevel::Normal));
    assert!(!level_admits(LogLevel::Quiet, LogLevel::Verbose));
    assert!(!level_admits(LogLevel::Quiet, LogLevel::Quiet));
    assert!(level_admits(LogLevel::Normal, LogLevel::Normal));
    assert!(!level_admits(LogLevel::Normal, LogLevel::Verbose));
    assert!(!level_admits(LogLevel::Normal, LogLevel::Quiet));
    assert!(level_admits(LogLevel::Verbose, LogLevel::Normal));
    assert!(level_admits(LogLevel::Verbose, LogLevel::Verbose));
    assert!(!level_admits(LogLevel::Verbose, LogLevel::Quiet));
}

#[test]
fn quiet_log_records_nothing() {
    let mut log = BoundedLog::new(LogLevel::Quiet, 64);
    log.record(LogLevel::Normal, 1, &[1], Outcome::Rejected);
    assert!(log.as_bytes().is_empty());
    assert_eq!(log.level(), LogLevel::Quiet);
    assert_eq!(log.capacity(), 64);
}

#[test]
fn normal_log_drops_verbose_events() {
    let mut log = BoundedLog::new(LogLevel::Normal, 64);
    log.record(LogLevel::Verbose, 1, &[1], Outcome::Sent);
    log.record(LogLevel::Normal, 2, &[2], Outcome::Rejected);
    assert_eq!(log.as_bytes(), b"NAK 2: 02\n");
}

#[test]
fn full_log_drops_whole_records() {
    let mut log = BoundedLog::new(LogLevel::Verbose, 20);
    log.record(LogLevel::Verbose, 1, &[1], Outcome::Sent);
    log.record(LogLevel::Verbose, 2, &[2, 3, 4, 5], Outcome::Sent);
    assert_eq!(log.as_bytes(), b"OK 1: 01\n");
    log.record(LogLevel::Verbose, 3, &[6], Outcome::Rejected);
    assert_eq!(log.as_bytes(), b"OK 1: 01\nNAK 3: 06\n");
    log.record(LogLevel::Verbose, 4, &[], Outcome::Sent);
    assert_eq!(log.as_bytes().len(), 19);
}

#[test]
fn record_that_fills_the_log_exactly_is_kept() {
    let mut log = BoundedLog::new(LogLevel::Verbose, 9);
    log.record(LogLevel::Normal, 1, &[1], Outcome::Sent);
    assert_eq!(log.as_bytes(), b"OK 1: 01\n");
}

#[test]
fn probe_judges_what_was_read() {
    let probe = VerificationProbe::new(vec![1, 2, 3]);
    assert_eq!(probe.judge(&Ok(vec![1, 2, 3])), VerificationOutcome::Pass);
    assert_eq!(probe.judge(&Ok(vec![1, 2, 4])), VerificationOutcome::Fail);
    assert_eq!(probe.judge(&Ok(vec![1, 2])), VerificationOutcome::Fail);
    assert_eq!(probe.judge(&Err(TransportError::ExecutionFailed)), VerificationOutcome::Fail);
}

#[test]
fn probe_reads_as_many_bytes_as_it_expects() {
    let probe = VerificationProbe::new(vec![7, 8]);
    let mut exec = TransportExecutor::new(ReadBus { answer: Ok(vec![7, 8]), asked: vec![] }, 0x3C, 0x00, 2);
    assert_eq!(probe.check(&mut exec), VerificationOutcome::Pass);
    assert_eq!(exec.bus().asked, vec![2]);
    let mut other = TransportExecutor::new(ReadBus { answer: Err(BusFault), asked: vec![] }, 0x3C, 0x00, 2);
    assert_eq!(probe.check(&mut other), VerificationOutcome::Fail);
}

#[test]
fn read_of_the_wrong_length_fails() {
    let mut exec = TransportExecutor::new(ReadBus { answer: Ok(vec![1, 2, 3]), asked: vec![] }, 0x3C, 0x00, 2);
    assert_eq!(exec.probe(3), Ok(vec![1, 2, 3]));
    assert_eq!(exec.probe(2), Err(TransportError::ExecutionFailed));
    assert_eq!(judge_read(Ok(vec![1]), 1), Ok(vec![1]));
    assert_eq!(judge_read(Ok(vec![1]), 0), Err(TransportError::ExecutionFailed));
    assert_eq!(judge_read(Err(BusFault), 0), Err(TransportError::ExecutionFailed));
}

#[test]
fn byte_strings_compare() {
    assert!(bytes_equal(&[], &[]));
    assert!(bytes_equal(&[1, 2], &[1, 2]));
    assert!(!bytes_equal(&[1, 2], &[1, 3]));
    assert!(!bytes_equal(&[1, 2], &[1]));
}
