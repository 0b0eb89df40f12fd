//! A leveled diagnostic log of fixed capacity. Records are rendered as text
//! lines; a record that the level does not admit, or that no longer fits, is
//! dropped whole.

use vstd::prelude::*;
use vstd::string::StringSliceAdditionalSpecFns;
use crate::error::TransportError;
use crate::serial::{LogSink, Offer, SerialWriter, taken_count};

verus! {

/// How much is recorded. An event carries the level from which on it is kept.
#[derive(Clone, Copy, Debug, PartialEq, Eq, Structural)]
pub enum LogLevel {
    /// Nothing is recorded.
    Quiet,
    /// Failures and results.
    Normal,
    /// Every single command as well.
    Verbose,
}

/// What happened to the command, or sequence, that a record is about.
#[derive(Clone, Copy, Debug, PartialEq, Eq, Structural)]
pub enum Outcome {
    /// The bus accepted the command.
    Sent,
    /// The bus rejected the command.
    Rejected,
    /// The command did not fit the frame buffer.
    Overflow,
    /// The device reported the expected state.
    Verified,
    /// The device reported another state than expected.
    Mismatch,
}

/// The outcome that a failed command is recorded with.
pub open spec fn failure_outcome(e: TransportError) -> Outcome {
    match e {
        TransportError::BufferOverflow => Outcome::Overflow,
        TransportError::ExecutionFailed => Outcome::Rejected,
    }
}

/// The outcome that a verdict of the probe is recorded with.
pub open spec fn verdict_outcome(passed: bool) -> Outcome {
    if passed {
        Outcome::Verified
    } else {
        Outcome::Mismatch
    }
}

/// The outcome that a failed command is recorded with.
pub fn failure_word(e: TransportError) -> (r: Outcome)
    ensures
        r == failure_outcome(e),
{
    match e {
        TransportError::BufferOverflow => Outcome::Overflow,
        TransportError::ExecutionFailed => Outcome::Rejected,
    }
}

/// The outcome that a verdict of the probe is recorded with.
pub fn verdict_word(passed: bool) -> (r: Outcome)
    ensures
        r == verdict_outcome(passed),
{
    if passed {
        Outcome::Verified
    } else {
        Outcome::Mismatch
    }
}

/// A log configured at `configured` keeps an event of level `event`.
pub open spec fn admits(configured: LogLevel, event: LogLevel) -> bool {
    match configured {
        LogLevel::Quiet => false,
        LogLevel::Normal => event == LogLevel::Normal,
        LogLevel::Verbose => event != LogLevel::Quiet,
    }
}

/// The ASCII code of the upper-case hexadecimal digit for `n`, where `n < 16`.
pub open spec fn hex_digit(n: int) -> u8 {
    if n < 10 {
        (48 + n) as u8
    } else {
        (55 + n) as u8
    }
}

/// The decimal digits of `n` in ASCII, most significant first.
pub open spec fn decimal(n: nat) -> Seq<u8>
    decreases n,
{
    if n < 10 {
        seq![(48 + n) as u8]
    } else {
        decimal(n / 10).push((48 + n % 10) as u8)
    }
}

/// Each byte of `bytes` as a space and two hexadecimal digits.
pub open spec fn hex_dump(bytes: Seq<u8>) -> Seq<u8>
    decreases bytes.len(),
{
    if bytes.len() == 0 {
        Seq::<u8>::empty()
    } else {
        hex_dump(bytes.drop_last()) + seq![32u8, hex_digit(bytes.last() as int / 16), hex_digit(bytes.last() as int % 16)]
    }
}

/// The word that stands for an outcome: `OK`, `NAK`, `OVF`, `PASS` or `FAIL`.
pub open spec fn outcome_tag(outcome: Outcome) -> Seq<u8> {
    match outcome {
        Outcome::Sent => seq![79u8, 75u8],
        Outcome::Rejected => seq![78u8, 65u8, 75u8],
        Outcome::Overflow => seq![79u8, 86u8, 70u8],
        Outcome::Verified => seq![80u8, 65u8, 83u8, 83u8],
        Outcome::Mismatch => seq![70u8, 65u8, 73u8, 76u8],
    }
}

/// The line of one record: the outcome's word, a space, the node index in
/// decimal, a colon, the bytes in hexadecimal, and a line feed.
pub open spec fn render_line(node_index: usize, bytes: Seq<u8>, outcome: Outcome) -> Seq<u8> {
    outcome_tag(outcome) + seq![32u8] + decimal(node_index as nat) + seq![58u8] + hex_dump(bytes) + seq![10u8]
}

/// The buffered text after one record: the line is appended where the level
/// admits the event and the line still fits, and dropped otherwise.
pub open spec fn recorded(
    text: Seq<u8>,
    capacity: nat,
    configured: LogLevel,
    event: LogLevel,
    line: Seq<u8>,
) -> Seq<u8> {
    if admits(configured, event) && text.len() + line.len() <= capacity {
        text + line
    } else {
        text
    }
}

/// Appends the decimal digits of `n`.
pub fn push_decimal(out: &mut Vec<u8>, n: usize)
    ensures
        final(out)@ == old(out)@ + decimal(n as nat),
    decreases n,
{
    if n < 10 {
        let digit: u8 = 48 + n as u8;
        out.push(digit);
        proof {
            assert(out@ =~= old(out)@ + decimal(n as nat));
        }
    } else {
        push_decimal(out, n / 10);
        let digit: u8 = 48 + (n % 10) as u8;
        out.push(digit);
        proof {
            assert(out@ =~= old(out)@ + decimal(n as nat));
        }
    }
}

/// The upper-case hexadecimal digit for `n`.
fn hex_of(n: u8) -> (r: u8)
    requires
        n < 16,
    ensures
        r == hex_digit(n as int),
{
    if n < 10 {
        48 + n
    } else {
        55 + n
    }
}

/// The two upper-case hexadecimal digits of `b`.
pub open spec fn hex_pair(b: u8) -> Seq<u8> {
    seq![hex_digit(b as int / 16), hex_digit(b as int % 16)]
}

/// Appends the two upper-case hexadecimal digits of `b`.
pub fn push_hex_pair(out: &mut Vec<u8>, b: u8)
    ensures
        final(out)@ == old(out)@ + hex_pair(b),
{
    out.push(hex_of(b / 16));
    out.push(hex_of(b % 16));
    proof {
        assert(out@ =~= old(out)@ + hex_pair(b));
    }
}

/// Appends the bytes of `text`.
pub fn push_text(out: &mut Vec<u8>, text: &str)
    ensures
        final(out)@ == old(out)@ + text.spec_bytes(),
{
    let bytes = text.as_bytes();
    let mut i: usize = 0;
    proof {
        assert(out@ =~= old(out)@ + bytes@.take(0));
    }
    while i < bytes.len()
        invariant
            i <= bytes.len(),
            bytes@ == text.spec_bytes(),
            out@ == old(out)@ + bytes@.take(i as int),
        decreases bytes.len() - i,
    {
        out.push(bytes[i]);
        i += 1;
        proof {
            assert(out@ =~= old(out)@ + bytes@.take(i as int));
        }
    }
    proof {
        assert(bytes@.take(bytes.len() as int) =~= bytes@);
    }
}

/// Appends each byte of `bytes` as a space and two hexadecimal digits.
fn push_hex_dump(out: &mut Vec<u8>, bytes: &[u8])
    ensures
        final(out)@ == old(out)@ + hex_dump(bytes@),
{
    let mut i: usize = 0;
    proof {
        assert(out@ =~= old(out)@ + hex_dump(bytes@.take(0)));
    }
    while i < bytes.len()
        invariant
            i <= bytes.len(),
            out@ == old(out)@ + hex_dump(bytes@.take(i as int)),
        decreases bytes.len() - i,
    {
        let b: u8 = bytes[i];
        out.push(32u8);
        out.push(hex_of(b / 16));
        out.push(hex_of(b % 16));
        i += 1;
        proof {
            assert(bytes@.take(i as int).drop_last() =~= bytes@.take(i as int - 1));
            assert(out@ =~= old(out)@ + hex_dump(bytes@.take(i as int)));
        }
    }
    proof {
        assert(bytes@.take(bytes.len() as int) =~= bytes@);
    }
}

/// Appends the word that stands for `outcome`.
fn push_tag(out: &mut Vec<u8>, outcome: Outcome)
    ensures
        final(out)@ == old(out)@ + outcome_tag(outcome),
{
    match outcome {
        Outcome::Sent => {
            out.push(79u8);
            out.push(75u8);
        },
        Outcome::Rejected => {
            out.push(78u8);
            out.push(65u8);
            out.push(75u8);
        },
        Outcome::Overflow => {
            out.push(79u8);
            out.push(86u8);
            out.push(70u8);
        },
        Outcome::Verified => {
            out.push(80u8);
            out.push(65u8);
            out.push(83u8);
            out.push(83u8);
        },
        Outcome::Mismatch => {
            out.push(70u8);
            out.push(65u8);
            out.push(73u8);
            out.push(76u8);
        },
    }
    proof {
        assert(out@ =~= old(out)@ + outcome_tag(outcome));
    }
}

/// Renders the line of one record.
pub fn render(node_index: usize, bytes: &[u8], outcome: Outcome) -> (r: Vec<u8>)
    ensures
        r@ == render_line(node_index, bytes@, outcome),
{
    let mut out: Vec<u8> = Vec::new();
    push_tag(&mut out, outcome);
    out.push(32u8);
    push_decimal(&mut out, node_index);
    out.push(58u8);
    push_hex_dump(&mut out, bytes);
    out.push(10u8);
    proof {
        assert(out@ =~= render_line(node_index, bytes@, outcome));
    }
    out
}

/// Whether a log configured at `configured` keeps an event of level `event`.
pub fn level_admits(configured: LogLevel, event: LogLevel) -> (r: bool)
    ensures
        r == admits(configured, event),
{
    match configured {
        LogLevel::Quiet => false,
        LogLevel::Normal => match event {
            LogLevel::Normal => true,
            _ => false,
        },
        LogLevel::Verbose => match event {
            LogLevel::Quiet => false,
            _ => true,
        },
    }
}

/// A text buffer of fixed capacity behind a verbosity level.
pub struct BoundedLog {
    level: LogLevel,
    capacity: usize,
    text: Vec<u8>,
}

impl BoundedLog {
    /// The buffered text never exceeds the capacity.
    pub open spec fn wf(&self) -> bool {
        self.text().len() <= self.limit()
    }

    /// The buffered text.
    pub closed spec fn text(&self) -> Seq<u8> {
        self.text@
    }

    /// The number of bytes that the buffer holds at most.
    pub closed spec fn limit(&self) -> nat {
        self.capacity as nat
    }

    /// The configured level.
    pub closed spec fn configured(&self) -> LogLevel {
        self.level
    }

    /// An empty log of `capacity` bytes that records at `level`.
    pub fn new(level: LogLevel, capacity: usize) -> (r: BoundedLog)
        ensures
            r.wf(),
            r.text() == Seq::<u8>::empty(),
            r.limit() == capacity,
            r.configured() == level,
    {
        BoundedLog { level, capacity, text: Vec::new() }
    }

    /// The configured level.
    pub fn level(&self) -> (r: LogLevel)
        ensures
            r == self.configured(),
    {
        self.level
    }

    /// The number of bytes that the buffer holds at most.
    pub fn capacity(&self) -> (r: usize)
        ensures
            r == self.limit(),
    {
        self.capacity
    }

    /// The buffered text.
    pub fn as_bytes(&self) -> (r: &[u8])
        ensures
            r@ == self.text(),
    {
        self.text.as_slice()
    }

    /// Appends `line` as one event of level `event`, where the configured
    /// level admits the event and the line fits what is left of the capacity;
    /// otherwise the log keeps its text.
    pub fn write_line(&mut self, event: LogLevel, line: &[u8])
        requires
            old(self).wf(),
        ensures
            final(self).wf(),
            final(self).limit() == old(self).limit(),
            final(self).configured() == old(self).configured(),
            final(self).text() == recorded(old(self).text(), old(self).limit(), old(self).configured(), event, line@),
    {
        if !level_admits(self.level, event) {
            return ;
        }
        if line.len() <= self.capacity - self.text.len() {
            let mut i: usize = 0;
            while i < line.len()
                invariant
                    i <= line@.len(),
                    self.text@ == old(self).text@ + line@.take(i as int),
                    self.capacity == old(self).capacity,
                    self.level == old(self).level,
                decreases line@.len() - i,
            {
                let b: u8 = line[i];
                self.text.push(b);
                i += 1;
                proof {
                    assert(self.text@ =~= old(self).text@ + line@.take(i as int));
                }
            }
            proof {
                assert(line@.take(line@.len() as int) =~= line@);
            }
        }
    }

    /// Records one event of level `event` about node `node_index`: its line
    /// is appended as `write_line` appends a line.
    pub fn record(&mut self, event: LogLevel, node_index: usize, bytes: &[u8], outcome: Outcome)
        requires
            old(self).wf(),
        ensures
            final(self).wf(),
            final(self).limit() == old(self).limit(),
            final(self).configured() == old(self).configured(),
            final(self).text() == recorded(
                old(self).text(),
                old(self).limit(),
                old(self).configured(),
                event,
                render_line(node_index, bytes@, outcome),
            ),
    {
        if !level_admits(self.level, event) {
            return ;
        }
        let line = render(node_index, bytes, outcome);
        self.write_line(event, line.as_slice());
    }

    /// Transfers the buffered text to the sink behind `writer`, byte by
    /// byte, and waits for the sink to drain. A byte that the sink refuses
    /// is passed over; the result is the number of bytes that the sink took.
    /// The log keeps its text: no more than its capacity is ever offered.
    pub fn flush<S: LogSink>(&self, writer: &mut SerialWriter<S>) -> (taken: usize)
        requires
            self.wf(),
        ensures
            self.text().len() <= self.limit(),
            taken <= self.text().len(),
            final(writer).offered().len() == old(writer).offered().len() + self.text().len(),
            final(writer).offered().take(old(writer).offered().len() as int) == old(writer).offered(),
            forall|i: int|
                0 <= i < self.text().len() ==> {
                    let offer = #[trigger] final(writer).offered()[old(writer).offered().len() + i];
                    offer.byte == self.text()[i]
                },
            taken == taken_count(final(writer).offered().skip(old(writer).offered().len() as int)),
            final(writer).drains().len() == old(writer).drains().len() + 1,
            final(writer).drains().drop_last() == old(writer).drains(),
            final(writer).drains().last().after == final(writer).offered().len(),
    {
        let ghost before = writer.offered();
        let ghost base = before.len() as int;
        let mut taken: usize = 0;
        let mut i: usize = 0;
        proof {
            assert(writer.offered().take(base) =~= before);
            assert(writer.offered().skip(base) =~= Seq::<Offer>::empty());
        }
        while i < self.text.len()
            invariant
                i <= self.text@.len(),
                taken <= i,
                before == old(writer).offered(),
                writer.drains() == old(writer).drains(),
                base == before.len(),
                writer.offered().len() == base + i,
                writer.offered().take(base) == before,
                forall|k: int| 0 <= k < i ==> (#[trigger] writer.offered()[base + k]).byte == self.text@[k],
                taken == taken_count(writer.offered().skip(base)),
            decreases self.text@.len() - i,
        {
            let ghost seen = writer.offered();
            let answer = writer.write_byte(self.text[i]);
            proof {
                assert(writer.offered().take(base) =~= seen.take(base));
                assert(writer.offered().skip(base).drop_last() =~= seen.skip(base));
            }
            if answer.is_ok() {
                taken += 1;
            }
            i += 1;
        }
        let _ = writer.drain();
        proof {
            assert(writer.drains().drop_last() =~= old(writer).drains());
        }
        taken
    }

    /// Empties the buffer.
    pub fn clear(&mut self)
        ensures
            final(self).wf(),
            final(self).text() == Seq::<u8>::empty(),
            final(self).limit() == old(self).limit(),
            final(self).configured() == old(self).configured(),
    {
        self.text.clear();
    }
}

} // verus!
