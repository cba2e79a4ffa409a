use vstd::prelude::*;
use std::collections::VecDeque;

verus! {

/// A send on a closed channel; the value comes back.
#[derive(Debug)]
pub struct SendError<T> {
    pub value: T,
}

/// Why nothing was received.
#[derive(Debug, PartialEq, Eq, Structural)]
pub enum ReceiveError {
    /// The channel is open but holds no message.
    Empty,
    /// The channel is closed and holds no message.
    Closed,
}

/// The shared state of a channel: the messages in flight and whether it is closed.
pub struct Queue<T> {
    data: VecDeque<T>,
    is_closed: bool,
}

impl<T> View for Queue<T> {
    type V = (Seq<T>, bool);

    /// The messages, oldest first, and whether the channel is closed.
    closed spec fn view(&self) -> (Seq<T>, bool) {
        (self.data@, self.is_closed)
    }
}

impl<T> Queue<T> {
    /// An open channel with no messages.
    pub fn new() -> (res: Self)
        ensures
            res@ == (Seq::<T>::empty(), false),
    {
        Self { data: VecDeque::new(), is_closed: false }
    }

    /// Queues `value` unless the channel is closed, in which case `value` comes back.
    pub fn push(&mut self, value: T) -> (res: Result<(), SendError<T>>)
        ensures
            old(self)@.1 ==> res == Err::<(), SendError<T>>(SendError { value }) && final(self)@
                == old(self)@,
            !old(self)@.1 ==> res is Ok && final(self)@ == (old(self)@.0.push(value), false),
    {
        if self.is_closed {
            return Result::Err(SendError { value });
        }
        self.data.push_back(value);
        Ok(())
    }

    /// Closes the channel; messages in flight stay receivable.
    pub fn close(&mut self)
        ensures
            final(self)@ == (old(self)@.0, true),
    {
        self.is_closed = true
    }

    /// Whether the channel is closed.
    pub fn is_closed(&self) -> (res: bool)
        ensures
            res == self@.1,
    {
        self.is_closed
    }

    /// The oldest message; when there is none, `Empty` on an open channel and
    /// `Closed` on a closed one.
    pub fn pop(&mut self) -> (res: Result<T, ReceiveError>)
        ensures
            old(self)@.0.len() > 0 ==> res == Ok::<T, ReceiveError>(old(self)@.0[0]) && final(self)@
                == (old(self)@.0.drop_first(), old(self)@.1),
            old(self)@.0.len() == 0 ==> final(self)@ == old(self)@ && res == Err::<T, ReceiveError>(
                if old(self)@.1 {
                    ReceiveError::Closed
                } else {
                    ReceiveError::Empty
                },
            ),
    {
        match (self.data.pop_front(), self.is_closed) {
            (None, false) => Err(ReceiveError::Empty),
            (None, true) => Err(ReceiveError::Closed),
            (Some(val), _) => {
                assert(self.data@ =~= old(self)@.0.drop_first());
                Ok(val)
            },
        }
    }

    /// A sender goes away while `handles` handles (senders and the receiver,
    /// itself included) share the channel: the last sender closes it.
    pub fn sender_dropped(&mut self, handles: usize)
        ensures
            final(self)@ == (old(self)@.0, old(self)@.1 || handles < 3),
    {
        if handles < 3 {
            self.close();
        }
    }
}

/// Messages come out in the order they went in: sending a message behind others
/// leaves the next one to be received as it was, and the rest follow in order.
pub proof fn lemma_first_in_first_out<T>(in_flight: Seq<T>, value: T)
    ensures
        in_flight.len() > 0 ==> in_flight.push(value)[0] == in_flight[0] && in_flight.push(
            value,
        ).drop_first() == in_flight.drop_first().push(value),
        in_flight.len() == 0 ==> in_flight.push(value)[0] == value && in_flight.push(
            value,
        ).drop_first().len() == 0,
{
    if in_flight.len() > 0 {
        assert(in_flight.push(value).drop_first() =~= in_flight.drop_first().push(value));
    }
}

} // verus!
