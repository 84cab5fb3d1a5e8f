//! An implementation of streams as overeager receivers of messages: the
//! receiving end of a FIFO channel that always holds exactly one message
//! received ahead of what has been consumed.
//!
//! The channel itself comes from the crossbeam crate; the declarations and
//! wrappers below are the only places where its behaviour is taken on
//! trust. What a receive returns depends on other threads, so nothing is
//! promised of the received element: the stream's contract exposes only the
//! buffered message.

use vstd::prelude::*;

use super::Stream;

verus! {

/// Declares crossbeam's sending handle so it can stand in signatures.
#[verifier::external_type_specification]
#[verifier::external_body]
#[verifier::reject_recursive_types(T)]
pub struct ExSender<T>(crossbeam::channel::Sender<T>);

/// Declares crossbeam's receiving handle so it can stand in fields.
#[verifier::external_type_specification]
#[verifier::external_body]
#[verifier::reject_recursive_types(T)]
pub struct ExReceiver<T>(crossbeam::channel::Receiver<T>);

/// Relies on crossbeam's `unbounded`: a FIFO channel of any capacity whose
/// two handles are returned. Nothing about its future contents can be
/// promised here.
#[verifier::external_body]
fn channel_unbounded<X>() -> (crossbeam::channel::Sender<X>, crossbeam::channel::Receiver<X>) {
    crossbeam::channel::unbounded()
}

/// Relies on crossbeam's `bounded`: a FIFO channel holding at most `cap`
/// messages, blocking senders when full.
#[verifier::external_body]
fn channel_bounded<X>(cap: usize) -> (
    crossbeam::channel::Sender<X>,
    crossbeam::channel::Receiver<X>,
) {
    crossbeam::channel::bounded(cap)
}

/// Relies on crossbeam's `Receiver::recv`: blocks until a message arrives
/// and returns it in send order per sender. Which message arrives depends
/// on other threads, so nothing is promised of the result; where every
/// sending handle is gone and the channel is drained, `recv` returns an
/// error and this call fails terminally, as advancing past the end of a
/// dried-up stream is allowed to.
#[verifier::external_body]
fn receive_next<X>(r: &crossbeam::channel::Receiver<X>) -> X {
    r.recv().unwrap()
}

/// A stream backed by the receiving end of a FIFO channel, holding one
/// already-received message ahead of what has been consumed.
#[verifier::reject_recursive_types(X)]
pub struct OvereagerReceiver<X> {
    message: X,
    receiver: crossbeam::channel::Receiver<X>,
}

impl<X> OvereagerReceiver<X> {
    /// The message the receiver has buffered.
    pub closed spec fn buffered(&self) -> X {
        self.message
    }

    /// Create a channel with an overeager receiver instead of a plain one.
    ///
    /// - `cap` is the number of messages the channel can hold, where `0`
    ///   means it can hold any number of messages;
    /// - `message` is an initial placeholder standing for what the receiver
    ///   has received ahead, exposed as the stream's first element before
    ///   anything is sent.
    ///
    /// The sending handle may be cloned and used from other threads; the
    /// receiver is owned by whatever single computation pulls from it.
    pub fn channel(cap: usize, message: X) -> (r: (
        crossbeam::channel::Sender<X>,
        OvereagerReceiver<X>,
    ))
        ensures
            r.1.buffered() == message,
            r.1.current() == message,
    {
        let (tx, receiver) = if cap > 0 {
            channel_bounded(cap)
        } else {
            channel_unbounded()
        };
        (tx, OvereagerReceiver { message, receiver })
    }
}

impl<X> Stream<X> for OvereagerReceiver<X> {
    closed spec fn current(&self) -> X {
        self.message
    }

    /// The next buffered message comes from outside, so nothing relates the
    /// two handles.
    open spec fn advances_to(&self, next: &Self) -> bool {
        true
    }

    fn head(&self) -> (r: &X) {
        &self.message
    }

    /// Blocks until the next message arrives; fails terminally if the
    /// sending side is permanently gone.
    fn tail(self) -> (r: Self) {
        let OvereagerReceiver { message: _message, receiver } = self;
        let next = receive_next(&receiver);
        OvereagerReceiver { message: next, receiver }
    }
}

} // verus!
