//! The bounded command transport: frames one command behind a prefix byte
//! and hands it to the bus, never longer than the configured capacity.

use vstd::prelude::*;
use crate::error::TransportError;

verus! {

/// A transfer that the bus driver rejected.
#[derive(Clone, Copy, Debug, PartialEq, Eq, Structural)]
pub struct BusFault;

/// The capability that the bus driver supplies. Nothing is assumed of how an
/// implementation answers.
pub trait Transport {
    /// Writes `bytes` to the device at `address`.
    fn write(&mut self, address: u8, bytes: &[u8]) -> Result<(), BusFault>;

    /// Reads `len` bytes of observable state from the device at `address`.
    fn read(&mut self, address: u8, len: usize) -> Result<Vec<u8>, BusFault>;
}

/// One frame handed to the bus for the device at `address`, and whether the
/// bus accepted it.
pub struct Attempt {
    pub address: u8,
    pub frame: Seq<u8>,
    pub accepted: bool,
}

/// One read of `len` bytes asked of the bus from the device at `address`,
/// with the bytes where the bus gave exactly that many, and `None` where it
/// did not.
pub struct Reading {
    pub address: u8,
    pub len: nat,
    pub data: Option<Seq<u8>>,
}

/// The reading that the result of a read of `len` bytes from `address`
/// stands for.
pub open spec fn reading_of(address: u8, len: nat, r: Result<Vec<u8>, TransportError>) -> Reading {
    Reading {
        address,
        len,
        data: match r {
            Ok(data) => Some(data@),
            Err(_) => None,
        },
    }
}

/// A command as it goes over the bus: the prefix byte, then the command bytes.
pub open spec fn framed(prefix: u8, bytes: Seq<u8>) -> Seq<u8> {
    seq![prefix] + bytes
}

/// Writes the frame of `bytes` into `buffer`, replacing what it held.
fn fill_frame(buffer: &mut Vec<u8>, prefix: u8, bytes: &[u8])
    ensures
        final(buffer)@ == framed(prefix, bytes@),
{
    buffer.clear();
    buffer.push(prefix);
    let mut i: usize = 0;
    while i < bytes.len()
        invariant
            i <= bytes.len(),
            buffer@ == framed(prefix, bytes@.take(i as int)),
        decreases bytes.len() - i,
    {
        buffer.push(bytes[i]);
        i += 1;
        proof {
            assert(buffer@ =~= framed(prefix, bytes@.take(i as int)));
        }
    }
    proof {
        assert(bytes@.take(bytes.len() as int) =~= bytes@);
    }
}

/// Frames a command for a transport whose commands hold at most
/// `max_cmd_len` bytes.
pub fn frame_command(prefix: u8, bytes: &[u8], max_cmd_len: usize) -> (r: Result<Vec<u8>, TransportError>)
    ensures
        bytes@.len() > max_cmd_len <==> r == Err::<Vec<u8>, TransportError>(TransportError::BufferOverflow),
        bytes@.len() <= max_cmd_len <==> r is Ok,
        r is Ok ==> r->Ok_0@ == framed(prefix, bytes@),
{
    if bytes.len() > max_cmd_len {
        return Err(TransportError::BufferOverflow);
    }
    let mut buffer: Vec<u8> = Vec::new();
    fill_frame(&mut buffer, prefix, bytes);
    Ok(buffer)
}

/// Sends single commands to one device over a bus, in frames of at most
/// `1 + max_cmd_len` bytes.
pub struct TransportExecutor<T: Transport> {
    bus: T,
    address: u8,
    prefix: u8,
    max_cmd_len: usize,
    journal: Ghost<Seq<Attempt>>,
    readings: Ghost<Seq<Reading>>,
}

impl<T: Transport> TransportExecutor<T> {
    /// The frames handed to the bus since construction, oldest first, each
    /// with the bus's answer.
    pub closed spec fn journal(&self) -> Seq<Attempt> {
        self.journal@
    }

    /// The reads asked of the bus since construction, oldest first.
    pub closed spec fn readings(&self) -> Seq<Reading> {
        self.readings@
    }

    /// The longest command, in bytes, that the transport takes.
    pub closed spec fn limit(&self) -> nat {
        self.max_cmd_len as nat
    }

    /// The byte that is put in front of every command.
    pub closed spec fn prefix_byte(&self) -> u8 {
        self.prefix
    }

    /// The device address that every transfer goes to.
    pub closed spec fn device(&self) -> u8 {
        self.address
    }

    /// The bus as it stands.
    pub closed spec fn bus_state(&self) -> T {
        self.bus
    }

    /// An executor for the device at `address` with an empty journal.
    pub fn new(bus: T, address: u8, prefix: u8, max_cmd_len: usize) -> (r: Self)
        ensures
            r.journal() == Seq::<Attempt>::empty(),
            r.readings() == Seq::<Reading>::empty(),
            r.limit() == max_cmd_len,
            r.prefix_byte() == prefix,
            r.device() == address,
            r.bus_state() == bus,
    {
        TransportExecutor {
            bus,
            address,
            prefix,
            max_cmd_len,
            journal: Ghost(Seq::empty()),
            readings: Ghost(Seq::empty()),
        }
    }

    /// The longest command, in bytes, that the transport takes.
    pub fn max_cmd_len(&self) -> (r: usize)
        ensures
            r == self.limit(),
    {
        self.max_cmd_len
    }

    /// The device address that every transfer goes to.
    pub fn address(&self) -> (r: u8)
        ensures
            r == self.device(),
    {
        self.address
    }

    /// Gives the bus back.
    pub fn into_bus(self) -> (r: T)
        ensures
            r == self.bus_state(),
    {
        self.bus
    }

    /// The bus, for inspection.
    pub fn bus(&self) -> (r: &T)
        ensures
            *r == self.bus_state(),
    {
        &self.bus
    }

    /// Asks whether a device answers at the address: writes the empty frame
    /// and says whether the bus accepted it.
    pub fn ping(&mut self) -> (r: bool)
        ensures
            final(self).limit() == old(self).limit(),
            final(self).prefix_byte() == old(self).prefix_byte(),
            final(self).device() == old(self).device(),
            final(self).readings() == old(self).readings(),
            final(self).journal() == old(self).journal().push(
                (Attempt { address: old(self).device(), frame: Seq::<u8>::empty(), accepted: r }),
            ),
    {
        let nothing: Vec<u8> = Vec::new();
        let answer = self.bus.write(self.address, nothing.as_slice());
        let accepted: bool = answer.is_ok();
        proof {
            self.journal@ = self.journal@.push(Attempt { address: self.address, frame: Seq::<u8>::empty(), accepted });
        }
        accepted
    }

    /// Frames `bytes` behind the control byte `control` and writes the frame
    /// to the device.
    ///
    /// A command longer than the limit is refused with `BufferOverflow`
    /// before the bus is touched: the executor, its bus included, is then
    /// unchanged. Otherwise exactly one frame goes to the bus, and the result
    /// is the bus's answer.
    pub fn execute_with(&mut self, control: u8, bytes: &[u8]) -> (r: Result<(), TransportError>)
        ensures
            final(self).limit() == old(self).limit(),
            final(self).prefix_byte() == old(self).prefix_byte(),
            final(self).device() == old(self).device(),
            final(self).readings() == old(self).readings(),
            bytes@.len() > old(self).limit() <==> r == Err::<(), TransportError>(TransportError::BufferOverflow),
            bytes@.len() > old(self).limit() ==> *final(self) == *old(self),
            bytes@.len() <= old(self).limit() ==> {
                &&& r is Ok || r == Err::<(), TransportError>(TransportError::ExecutionFailed)
                &&& final(self).journal() == old(self).journal().push(
                    (Attempt { address: old(self).device(), frame: framed(control, bytes@), accepted: r is Ok }),
                )
            },
    {
        let frame = match frame_command(control, bytes, self.max_cmd_len) {
            Ok(frame) => frame,
            Err(e) => {
                return Err(e);
            },
        };
        let answer = self.bus.write(self.address, frame.as_slice());
        let accepted: bool = answer.is_ok();
        proof {
            self.journal@ = self.journal@.push(Attempt { address: self.address, frame: framed(control, bytes@), accepted });
        }
        if accepted {
            Ok(())
        } else {
            Err(TransportError::ExecutionFailed)
        }
    }

    /// Frames `bytes` behind the configured prefix byte and writes the frame
    /// to the device, as `execute_with` does.
    pub fn execute(&mut self, bytes: &[u8]) -> (r: Result<(), TransportError>)
        ensures
            final(self).limit() == old(self).limit(),
            final(self).prefix_byte() == old(self).prefix_byte(),
            final(self).device() == old(self).device(),
            final(self).readings() == old(self).readings(),
            bytes@.len() > old(self).limit() <==> r == Err::<(), TransportError>(TransportError::BufferOverflow),
            bytes@.len() > old(self).limit() ==> *final(self) == *old(self),
            bytes@.len() <= old(self).limit() ==> {
                &&& r is Ok || r == Err::<(), TransportError>(TransportError::ExecutionFailed)
                &&& final(self).journal() == old(self).journal().push(
                    (Attempt {
                        address: old(self).device(),
                        frame: framed(old(self).prefix_byte(), bytes@),
                        accepted: r is Ok,
                    }),
                )
            },
    {
        let control: u8 = self.prefix;
        self.execute_with(control, bytes)
    }

    /// Reads `len` bytes of observable device state back.
    ///
    /// Anything but exactly `len` bytes from the bus counts as a failed read.
    pub fn probe(&mut self, len: usize) -> (r: Result<Vec<u8>, TransportError>)
        ensures
            final(self).limit() == old(self).limit(),
            final(self).prefix_byte() == old(self).prefix_byte(),
            final(self).device() == old(self).device(),
            final(self).journal() == old(self).journal(),
            final(self).readings() == old(self).readings().push(reading_of(old(self).device(), len as nat, r)),
            match r {
                Ok(data) => data@.len() == len,
                Err(e) => e == TransportError::ExecutionFailed,
            },
    {
        let answer = self.bus.read(self.address, len);
        let r = judge_read(answer, len);
        proof {
            self.readings@ = self.readings@.push(reading_of(self.address, len as nat, r));
        }
        r
    }
}

/// What a read of `len` bytes amounts to, given the bus's answer.
pub fn judge_read(answer: Result<Vec<u8>, BusFault>, len: usize) -> (r: Result<Vec<u8>, TransportError>)
    ensures
        match answer {
            Ok(data) if data@.len() == len => r == Ok::<Vec<u8>, TransportError>(data),
            _ => r == Err::<Vec<u8>, TransportError>(TransportError::ExecutionFailed),
        },
{
    match answer {
        Ok(data) => {
            if data.len() == len {
                Ok(data)
            } else {
                Err(TransportError::ExecutionFailed)
            }
        },
        Err(_) => Err(TransportError::ExecutionFailed),
    }
}

} // verus!
