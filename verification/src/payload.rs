//! Stream items that are either real payload or a dummy to be filled in before sending.

use vstd::prelude::*;

verus! {

/// A real payload element, or a dummy element that must be replaced by something to transmit.
#[derive(Copy, Clone, PartialEq, Eq, Structural, Debug)]
pub enum Payload<T> {
    Payload(T),
    Dummy,
}

impl<T> Payload<T> {
    /// The payload, or for a dummy what `f` makes.
    pub fn unwrap_or_else<F: FnOnce() -> T>(self, f: F) -> (r: T)
        requires
            self is Dummy ==> f.requires(()),
        ensures
            match self {
                Payload::Payload(p) => r == p,
                Payload::Dummy => f.ensures((), r),
            },
    {
        match self {
            Payload::Payload(p) => p,
            Payload::Dummy => f(),
        }
    }
}

impl<T> Payload<Payload<T>> {
    /// Two layers of payload as one: a payload only when both layers are.
    pub fn flatten(self) -> (r: Payload<T>)
        ensures
            r == match self {
                Payload::Payload(Payload::Payload(p)) => Payload::Payload(p),
                _ => Payload::Dummy,
            },
    {
        match self {
            Payload::Payload(Payload::Payload(p)) => Payload::Payload(p),
            _ => Payload::Dummy,
        }
    }
}

} // verus!
