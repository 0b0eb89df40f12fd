//! The verification probe: reads observable device state back and compares
//! it with an expected signature.

use vstd::prelude::*;
use crate::error::TransportError;
use crate::transport::{Reading, Transport, TransportExecutor};

verus! {

/// The verdict of a probe on the state that a sequence left behind.
#[derive(Clone, Copy, Debug, PartialEq, Eq, Structural)]
pub enum VerificationOutcome {
    Pass,
    Fail,
}

/// The verdict on what a read returned: `Pass` exactly when the read
/// succeeded and gave the expected bytes.
pub open spec fn verdict_of(
    expected: Seq<u8>,
    observed: Result<Vec<u8>, TransportError>,
) -> VerificationOutcome {
    match observed {
        Ok(data) => if data@ == expected {
            VerificationOutcome::Pass
        } else {
            VerificationOutcome::Fail
        },
        Err(_) => VerificationOutcome::Fail,
    }
}

/// The verdict that a reading stands for: `Pass` exactly when the bus gave
/// the expected bytes.
pub open spec fn reading_verdict(expected: Seq<u8>, reading: Reading) -> VerificationOutcome {
    if reading.data == Some(expected) {
        VerificationOutcome::Pass
    } else {
        VerificationOutcome::Fail
    }
}

/// Whether two byte strings are equal.
pub fn bytes_equal(a: &[u8], b: &[u8]) -> (r: bool)
    ensures
        r == (a@ == b@),
{
    if a.len() != b.len() {
        return false;
    }
    let mut i: usize = 0;
    while i < a.len()
        invariant
            i <= a.len(),
            a@.len() == b@.len(),
            forall|k: int| 0 <= k < i ==> a@[k] == b@[k],
        decreases a.len() - i,
    {
        if a[i] != b[i] {
            return false;
        }
        i += 1;
    }
    proof {
        assert(a@ =~= b@);
    }
    true
}

/// An oracle that accepts or rejects the state of the device by a signature
/// of bytes that the device is expected to report.
pub struct VerificationProbe {
    expected: Vec<u8>,
}

impl VerificationProbe {
    /// The signature that the probe expects.
    pub closed spec fn signature(&self) -> Seq<u8> {
        self.expected@
    }

    /// A probe that expects the device to report `expected`.
    pub fn new(expected: Vec<u8>) -> (r: VerificationProbe)
        ensures
            r.signature() == expected@,
    {
        VerificationProbe { expected }
    }

    /// The verdict on what a read returned.
    pub fn judge(&self, observed: &Result<Vec<u8>, TransportError>) -> (r: VerificationOutcome)
        ensures
            r == verdict_of(self.signature(), *observed),
    {
        match observed {
            Ok(data) => {
                if bytes_equal(data.as_slice(), self.expected.as_slice()) {
                    VerificationOutcome::Pass
                } else {
                    VerificationOutcome::Fail
                }
            },
            Err(_) => VerificationOutcome::Fail,
        }
    }

    /// Reads as many bytes as the signature has from the device and judges
    /// them. Nothing is written to the device.
    pub fn check<T: Transport>(&self, exec: &mut TransportExecutor<T>) -> (r: VerificationOutcome)
        ensures
            final(exec).limit() == old(exec).limit(),
            final(exec).prefix_byte() == old(exec).prefix_byte(),
            final(exec).device() == old(exec).device(),
            final(exec).journal() == old(exec).journal(),
            final(exec).readings().len() == old(exec).readings().len() + 1,
            final(exec).readings().drop_last() == old(exec).readings(),
            final(exec).readings().last().address == old(exec).device(),
            final(exec).readings().last().len == self.signature().len(),
            r == reading_verdict(self.signature(), final(exec).readings().last()),
    {
        let observed = exec.probe(self.expected.len());
        proof {
            assert(exec.readings().drop_last() =~= old(exec).readings());
        }
        self.judge(&observed)
    }
}

} // verus!
