//! What a handler asks its surroundings to do, and what it is told about the outcome.
use crate::protocol::TcpMessage;
use crate::protocol::TcpView;
use vstd::prelude::*;

verus! {

/// What is to be done next for a request.
#[derive(Debug, PartialEq, Eq)]
pub enum Task {
    /// Write a message to the client and carry on.
    Write(TcpMessage),
    /// Send a message to a peer and wait for its response.
    Ask { peer: String, message: TcpMessage },
    /// Send a message to a peer that does not respond.
    Tell { peer: String, message: TcpMessage },
    /// Wait until the order is delivered.
    Await,
    /// Write a message to the client; the request is done with.
    Answer(TcpMessage),
}

/// What a [`Task`] holds.
#[verifier::ext_equal]
pub enum TaskView {
    Write(TcpView),
    Ask { peer: Seq<char>, message: TcpView },
    Tell { peer: Seq<char>, message: TcpView },
    Await,
    Answer(TcpView),
}

impl View for Task {
    type V = TaskView;

    open spec fn view(&self) -> TaskView {
        match self {
            Task::Write(m) => TaskView::Write(m@),
            Task::Ask { peer, message } => TaskView::Ask { peer: peer@, message: message@ },
            Task::Tell { peer, message } => TaskView::Tell { peer: peer@, message: message@ },
            Task::Await => TaskView::Await,
            Task::Answer(m) => TaskView::Answer(m@),
        }
    }
}

/// What came of a task.
#[derive(Debug, PartialEq, Eq)]
pub enum Event {
    /// The message was written or told.
    Done,
    /// The message could not be encoded; why.
    NotEncoded(String),
    /// The client or the peer could not be reached; why.
    Failed(String),
    /// The peer responded. The response also comes in the form in which it is shown to people.
    Answered { message: TcpMessage, shown: String },
    /// The order was delivered with this result.
    Delivered(TcpMessage),
    /// The order was not delivered in time.
    TimedOut,
}

/// What an [`Event`] holds.
#[verifier::ext_equal]
pub enum EventView {
    Done,
    NotEncoded(Seq<char>),
    Failed(Seq<char>),
    Answered { message: TcpView, shown: Seq<char> },
    Delivered(TcpView),
    TimedOut,
}

impl View for Event {
    type V = EventView;

    open spec fn view(&self) -> EventView {
        match self {
            Event::Done => EventView::Done,
            Event::NotEncoded(why) => EventView::NotEncoded(why@),
            Event::Failed(why) => EventView::Failed(why@),
            Event::Answered { message, shown } => EventView::Answered {
                message: message@,
                shown: shown@,
            },
            Event::Delivered(m) => EventView::Delivered(m@),
            Event::TimedOut => EventView::TimedOut,
        }
    }
}

/// The event can come of the task. Nothing comes of an answer.
pub open spec fn fits(task: TaskView, event: EventView) -> bool {
    match task {
        TaskView::Write(m) => event is Done || event is NotEncoded || event is Failed,
        TaskView::Ask { peer, message } => event is Answered || event is Failed,
        TaskView::Tell { peer, message } => event is Done || event is Failed,
        TaskView::Await => event is Delivered || event is TimedOut,
        TaskView::Answer(m) => false,
    }
}

/// An error message for the client.
pub open spec fn error(message: Seq<char>) -> TcpView {
    TcpView::Error { message }
}

/// An error message for the client, put together from two parts.
pub(crate) fn error2(a: &str, b: &str) -> (r: TcpMessage)
    ensures
        r@ == error(a@ + b@),
{
    TcpMessage::Error { message: a.to_string().concat(b) }
}

/// An error message for the client, put together from three parts.
pub(crate) fn error3(a: &str, b: &str, c: &str) -> (r: TcpMessage)
    ensures
        r@ == error(a@ + b@ + c@),
{
    TcpMessage::Error { message: a.to_string().concat(b).concat(c) }
}

/// An error message holds all its parts, in order.
pub(crate) proof fn errors_hold_all_parts(
    a: &str,
    b: &str,
    c: &str,
    two: TcpMessage,
    three: TcpMessage,
)
    requires
        call_ensures(error2, (a, b), two),
        call_ensures(error3, (a, b, c), three),
    ensures
        two@ == (TcpView::Error { message: a@ + b@ }),
        three@ == (TcpView::Error { message: a@ + b@ + c@ }),
{
}

} // verus!
