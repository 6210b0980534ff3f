//! Valid/ready stream beats.
use vstd::prelude::*;

verus! {

/// A valid/ready stream beat.
#[derive(Clone, Copy, Debug, PartialEq, Eq, Default)]
pub struct Stream<T> {
    pub data: T,
    pub valid: bool,
    pub ready: bool,
}

impl<T> Stream<T> {
    /// A beat with both handshake flags low.
    pub fn new(data: T) -> (r: Self)
        ensures
            r.data == data,
            !r.valid,
            !r.ready,
    {
        Stream { data, valid: false, ready: false }
    }

    /// A transfer occurs exactly when both flags are asserted.
    pub fn fire(&self) -> (r: bool)
        ensures
            r == (self.valid && self.ready),
    {
        self.valid && self.ready
    }

    /// The producer has data but the consumer is not ready.
    pub fn stalled(&self) -> (r: bool)
        ensures
            r == (self.valid && !self.ready),
    {
        self.valid && !self.ready
    }

    /// Maps the payload; the handshake flags stay.
    pub fn map<U, F: FnOnce(T) -> U>(self, f: F) -> (r: Stream<U>)
        requires
            call_requires(f, (self.data,)),
        ensures
            call_ensures(f, (self.data,), r.data),
            r.valid == self.valid,
            r.ready == self.ready,
    {
        Stream { data: f(self.data), valid: self.valid, ready: self.ready }
    }
}

} // verus!
