//! Streams of some element type, characterized by a trait, together with
//! implementations of it in the submodules.

use vstd::prelude::*;

pub mod infinite_lists;
pub mod overeager_receivers;

verus! {

/// A stream of elements of type `X`: an object exposing its current element
/// and able to advance to what remains.
///
/// Advancing consumes the handle and hands back the handle for the rest, so
/// a stream is threaded linearly through a computation. An implementation's
/// advance may block, and may fail terminally — by panicking — where its
/// source of elements is permanently gone.
pub trait Stream<X>: Sized {
    /// The element the stream currently exposes.
    spec fn current(&self) -> X;

    /// What advancing may turn this stream into; each implementation states
    /// here how the next handle relates to this one.
    spec fn advances_to(&self, next: &Self) -> bool;

    /// Return a reference to the current element, without consuming it.
    fn head(&self) -> (r: &X)
        ensures
            *r == self.current(),
    ;

    /// Throw away the current element and return the stream of what
    /// remains.
    fn tail(self) -> (r: Self)
        ensures
            self.advances_to(&r),
    ;
}

/// The elements `fed` were drawn in order from the stream `start`: `reads`
/// holds the stream state at each draw, each state advanced from the one
/// before — from `start` itself, after one advance where `advanced_first`
/// says so — each drawn element is the current element of its state, and
/// `rest` is the state left after the last draw.
pub open spec fn drawn_from<X, S: Stream<X>>(
    start: S,
    advanced_first: bool,
    reads: Seq<S>,
    fed: Seq<X>,
    rest: S,
) -> bool {
    &&& fed.len() == reads.len()
    &&& forall|i: int| 0 <= i < reads.len() ==> fed[i] == (#[trigger] reads[i]).current()
    &&& forall|i: int|
        #![trigger reads[i]]
        1 <= i < reads.len() ==> reads[i - 1].advances_to(&reads[i])
    &&& if reads.len() == 0 {
        rest == start
    } else {
        &&& if advanced_first {
            start.advances_to(&reads[0])
        } else {
            reads[0] == start
        }
        &&& rest == reads[reads.len() - 1]
    }
}

} // verus!
