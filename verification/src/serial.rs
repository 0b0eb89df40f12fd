//! The text sink: a byte-wise serial writer over the capability that the
//! serial driver supplies.

use vstd::prelude::*;
use vstd::string::StringSliceAdditionalSpecFns;

verus! {

/// A transfer that the sink rejected.
#[derive(Clone, Copy, Debug, PartialEq, Eq, Structural)]
pub struct SinkFault;

/// The external sink that text is written to. Nothing is assumed of how an
/// implementation answers.
pub trait LogSink {
    /// Writes one byte, blocking until the sink has taken or refused it.
    fn write_byte(&mut self, byte: u8) -> Result<(), SinkFault>;

    /// Waits until everything written has left the sink.
    fn flush(&mut self) -> Result<(), SinkFault>;
}

/// One byte handed to the sink and whether the sink took it.
pub struct Offer {
    pub byte: u8,
    pub taken: bool,
}

/// One request to the sink to drain, made after `after` bytes had been
/// offered, and whether the sink reported that it had drained.
pub struct Drain {
    pub after: nat,
    pub done: bool,
}

/// The offers of the bytes of `bytes`, in order, each taken.
pub open spec fn all_taken(bytes: Seq<u8>) -> Seq<Offer> {
    Seq::new(bytes.len(), |i: int| (Offer { byte: bytes[i], taken: true }))
}

/// The number of offers that the sink took.
pub open spec fn taken_count(offers: Seq<Offer>) -> nat
    decreases offers.len(),
{
    if offers.len() == 0 {
        0
    } else {
        taken_count(offers.drop_last()) + if offers.last().taken { 1nat } else { 0nat }
    }
}

/// Writes text to a sink byte by byte.
pub struct SerialWriter<S: LogSink> {
    sink: S,
    offered: Ghost<Seq<Offer>>,
    drains: Ghost<Seq<Drain>>,
}

impl<S: LogSink> SerialWriter<S> {
    /// The bytes handed to the sink since construction, oldest first, each
    /// with the sink's answer.
    pub closed spec fn offered(&self) -> Seq<Offer> {
        self.offered@
    }

    /// The requests to drain made of the sink since construction, oldest
    /// first, each with the sink's answer.
    pub closed spec fn drains(&self) -> Seq<Drain> {
        self.drains@
    }

    /// The sink as it stands.
    pub closed spec fn sink_state(&self) -> S {
        self.sink
    }

    /// A writer over `sink` that has offered nothing yet.
    pub fn new(sink: S) -> (r: Self)
        ensures
            r.offered() == Seq::<Offer>::empty(),
            r.drains() == Seq::<Drain>::empty(),
            r.sink_state() == sink,
    {
        SerialWriter { sink, offered: Ghost(Seq::empty()), drains: Ghost(Seq::empty()) }
    }

    /// Gives the sink back.
    pub fn into_sink(self) -> (r: S)
        ensures
            r == self.sink_state(),
    {
        self.sink
    }

    /// The sink, for inspection.
    pub fn sink(&self) -> (r: &S)
        ensures
            *r == self.sink_state(),
    {
        &self.sink
    }

    /// Hands one byte to the sink.
    pub fn write_byte(&mut self, byte: u8) -> (r: Result<(), SinkFault>)
        ensures
            final(self).offered() == old(self).offered().push((Offer { byte, taken: r is Ok })),
            final(self).drains() == old(self).drains(),
    {
        let answer = self.sink.write_byte(byte);
        let taken: bool = answer.is_ok();
        proof {
            self.offered@ = self.offered@.push(Offer { byte, taken });
        }
        if taken {
            Ok(())
        } else {
            Err(SinkFault)
        }
    }

    /// Hands the bytes to the sink in order and stops at the first byte that
    /// the sink refuses.
    pub fn write_bytes(&mut self, bytes: &[u8]) -> (r: Result<(), SinkFault>)
        ensures
            final(self).drains() == old(self).drains(),
            match r {
                Ok(_) => final(self).offered() == old(self).offered() + all_taken(bytes@),
                Err(_) => exists|k: int|
                    0 <= k < bytes@.len() && final(self).offered() == (old(self).offered() + all_taken(
                        #[trigger] bytes@.take(k),
                    )).push((Offer { byte: bytes@[k], taken: false })),
            },
    {
        let mut i: usize = 0;
        proof {
            assert(self.offered() =~= old(self).offered() + all_taken(bytes@.take(0)));
        }
        while i < bytes.len()
            invariant
                i <= bytes.len(),
                self.drains() == old(self).drains(),
                self.offered() == old(self).offered() + all_taken(bytes@.take(i as int)),
            decreases bytes.len() - i,
        {
            let ghost seen = self.offered();
            let answer = self.write_byte(bytes[i]);
            if answer.is_err() {
                return Err(SinkFault);
            }
            i += 1;
            proof {
                assert(self.offered() =~= old(self).offered() + all_taken(bytes@.take(i as int)));
            }
        }
        proof {
            assert(bytes@.take(bytes.len() as int) =~= bytes@);
        }
        Ok(())
    }

    /// Hands the bytes of `text` to the sink in order and stops at the first
    /// byte that the sink refuses.
    pub fn write_str(&mut self, text: &str) -> (r: Result<(), SinkFault>)
        ensures
            final(self).drains() == old(self).drains(),
            match r {
                Ok(_) => final(self).offered() == old(self).offered() + all_taken(text.spec_bytes()),
                Err(_) => exists|k: int|
                    0 <= k < text.spec_bytes().len() && final(self).offered() == (old(self).offered() + all_taken(
                        #[trigger] text.spec_bytes().take(k),
                    )).push((Offer { byte: text.spec_bytes()[k], taken: false })),
            },
    {
        self.write_bytes(text.as_bytes())
    }

    /// Asks the sink once to drain, which blocks until everything written
    /// has left it or the sink gives up, and hands the sink's answer back.
    /// Nothing is offered.
    pub fn drain(&mut self) -> (r: Result<(), SinkFault>)
        ensures
            final(self).offered() == old(self).offered(),
            final(self).drains() == old(self).drains().push(
                (Drain { after: old(self).offered().len(), done: r is Ok }),
            ),
    {
        let answer = self.sink.flush();
        let done: bool = answer.is_ok();
        proof {
            self.drains@ = self.drains@.push(Drain { after: self.offered@.len(), done });
        }
        answer
    }
}

} // verus!
