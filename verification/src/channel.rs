//! The two channels between a debugger and its controller.
use crate::protocol::{CmdView, DebugCmd, DebugResp, RespView};
use std::sync::mpsc::{Receiver, Sender, TryRecvError};
use vstd::prelude::*;

verus! {

/// The sending end of a channel of the standard library.
#[verifier::external_type_specification]
#[verifier::external_body]
#[verifier::reject_recursive_types(T)]
pub struct ExSender<T>(Sender<T>);

/// The receiving end of a channel of the standard library.
#[verifier::external_type_specification]
#[verifier::external_body]
#[verifier::reject_recursive_types(T)]
pub struct ExReceiver<T>(Receiver<T>);

/// The debugger's ends of the channels to its controller.
pub struct DebuggerConnection {
    pub tx: Sender<DebugResp>,
    pub rx: Receiver<DebugCmd>,
}

/// What came of looking for a command.
#[derive(Debug)]
pub enum Received {
    Command(DebugCmd),
    /// There is none yet.
    Empty,
    /// There is none, and the controller has gone.
    Disconnected,
}

/// What came of looking for a command, as mathematics.
pub enum PollView {
    Command(CmdView),
    Empty,
    Disconnected,
}

impl View for Received {
    type V = PollView;

    open spec fn view(&self) -> PollView {
        match *self {
            Received::Command(cmd) => PollView::Command(cmd@),
            Received::Empty => PollView::Empty,
            Received::Disconnected => PollView::Disconnected,
        }
    }
}

/// A response that was handed to a channel, and whether the channel took it.
pub struct Offer {
    pub response: RespView,
    pub accepted: bool,
}

/// The responses that a sending end was handed, from the first on.
pub uninterp spec fn offers_made(tx: Sender<DebugResp>) -> Seq<Offer>;

/// What looking for commands at a receiving end came to, from the first time on.
pub uninterp spec fn polls_made(rx: Receiver<DebugCmd>) -> Seq<PollView>;

/// `std::sync::mpsc::Sender::send`. The channel is handed the response. It takes it unless the
/// receiving end is gone, which only the controller's side decides.
#[verifier::external_body]
pub(crate) fn send_response(tx: &mut Sender<DebugResp>, response: DebugResp) -> (accepted: bool)
    ensures
        offers_made(*final(tx)) == offers_made(*old(tx)).push(
            Offer { response: response@, accepted },
        ),
{
    tx.send(response).is_ok()
}

/// `std::sync::mpsc::Receiver::try_recv`. The channel is looked at once. Whether it holds a command,
/// and whether the sending ends are all gone, only the controller's side decides.
#[verifier::external_body]
pub(crate) fn poll_command(rx: &mut Receiver<DebugCmd>) -> (received: Received)
    ensures
        polls_made(*final(rx)) == polls_made(*old(rx)).push(received@),
{
    match rx.try_recv() {
        Ok(cmd) => Received::Command(cmd),
        Err(TryRecvError::Empty) => Received::Empty,
        Err(TryRecvError::Disconnected) => Received::Disconnected,
    }
}

} // verus!
