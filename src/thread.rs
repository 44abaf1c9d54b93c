//! The two ends of the channels that link the scheduler with one worker.
use vstd::prelude::*;
use std::sync::mpsc::{Receiver, RecvError, SendError, Sender};
use crate::worker::{MsgFromWorker, MsgToWorker};

verus! {

/// `std::sync::mpsc::Sender`, opaque: requests are only carried through it.
#[verifier::external_type_specification]
#[verifier::external_body]
#[verifier::reject_recursive_types(T)]
pub struct ExSender<T>(Sender<T>);

/// `std::sync::mpsc::Receiver`, opaque: replies are only carried through it.
#[verifier::external_type_specification]
#[verifier::external_body]
#[verifier::reject_recursive_types(T)]
pub struct ExReceiver<T>(Receiver<T>);

/// `std::sync::mpsc::SendError`, opaque: carried in a failure report.
#[verifier::external_type_specification]
#[verifier::external_body]
#[verifier::reject_recursive_types(T)]
pub struct ExSendError<T>(SendError<T>);

/// `std::sync::mpsc::RecvError`, opaque: carried in a failure report.
#[verifier::external_type_specification]
#[verifier::external_body]
pub struct ExRecvError(RecvError);

/// The scheduler's ends of one worker's channels: requests go out through
/// the first, replies come back through the second.
pub type Thread = (Sender<MsgToWorker>, Receiver<MsgFromWorker>);

/// Hands a request to a worker.
pub trait Send {
    fn send(&self, msg: MsgToWorker) -> Result<(), SendError<MsgToWorker>>;
}

/// Waits for a worker's next reply.
pub trait Receive {
    fn recv(&self) -> Result<MsgFromWorker, RecvError>;
}

/// Relies on `std::sync::mpsc::Sender::send`, which fails only where the
/// worker's end is gone; whether it is cannot be known here.
#[verifier::external_body]
fn send_to(sender: &Sender<MsgToWorker>, msg: MsgToWorker) -> Result<(), SendError<MsgToWorker>> {
    sender.send(msg)
}

/// Relies on `std::sync::mpsc::Receiver::recv`, which blocks until the
/// worker replies and fails where its end is gone; what it replies cannot
/// be known here.
#[verifier::external_body]
fn recv_from(receiver: &Receiver<MsgFromWorker>) -> Result<MsgFromWorker, RecvError> {
    receiver.recv()
}

impl Send for Thread {
    fn send(&self, msg: MsgToWorker) -> Result<(), SendError<MsgToWorker>> {
        send_to(&self.0, msg)
    }
}

impl Receive for Thread {
    fn recv(&self) -> Result<MsgFromWorker, RecvError> {
        recv_from(&self.1)
    }
}

} // verus!
