//! The channel through which the other nodes send a limiter their buckets.

use crossbeam::channel::Sender as ChannelSender;
use vstd::prelude::*;

use crate::listener::{Listener, Reply};
use crate::table::LeaseTable;

verus! {

/// `crossbeam::channel::Receiver`, the end of a channel at which a limiter
/// hears from the other nodes.
#[verifier::external_type_specification]
#[verifier::external_body]
#[verifier::reject_recursive_types(T)]
pub struct ExReceiver<T>(crossbeam::channel::Receiver<T>);

/// `crossbeam::channel::Sender`, the end of a channel at which the other nodes
/// speak.
#[verifier::external_type_specification]
#[verifier::external_body]
#[verifier::reject_recursive_types(T)]
pub struct ExChannelSender<T>(ChannelSender<T>);

/// The two are the ends of one channel: what goes in at `sender` comes out at
/// `receiver`.
pub uninterp spec fn connected(
    sender: ChannelSender<Vec<LeaseTable>>,
    receiver: crossbeam::channel::Receiver<Vec<LeaseTable>>,
) -> bool;

/// `crossbeam::channel::unbounded`: the two ends of one new channel that holds
/// any number of messages. What will travel through it is up to those who hold
/// the ends, so nothing is claimed of that.
#[verifier::external_body]
pub(crate) fn open_channel() -> (ends: (
    ChannelSender<Vec<LeaseTable>>,
    crossbeam::channel::Receiver<Vec<LeaseTable>>,
))
    ensures
        connected(ends.0, ends.1),
{
    crossbeam::channel::unbounded()
}

/// `crossbeam::channel::RecvError`, the answer of a channel that is empty and
/// whose senders are all gone.
#[verifier::external_type_specification]
#[verifier::external_body]
pub struct ExRecvError(crossbeam::channel::RecvError);

/// `crossbeam::channel::Receiver::recv`: waits for the next message and hands
/// it over, or fails once the channel is empty and no sender is left. Which of
/// the two comes about, and when, is up to the other nodes, so nothing is
/// claimed of the reply itself; the listener, whose end stays the same, has heard
/// that reply after all it had heard before.
#[verifier::external_body]
fn receive(listener: &mut Listener) -> (reply: Result<
    Vec<LeaseTable>,
    crossbeam::channel::RecvError,
>)
    ensures
        final(listener).heard() == old(listener).heard().push(reply),
        final(listener).spec_channel() == old(listener).spec_channel(),
{
    listener.channel().recv()
}

/// Takes in what the channel answered: a message goes behind those that came
/// before it, and the error leaves them as they are. Tells whether more may come.
pub fn take_in(
    received: &mut Vec<Vec<LeaseTable>>,
    reply: Result<Vec<LeaseTable>, crossbeam::channel::RecvError>,
) -> (open: bool)
    ensures
        open == (reply is Ok),
        reply matches Ok(message) ==> final(received)@ == old(received)@.push(message),
        reply is Err ==> final(received)@ == old(received)@,
{
    match reply {
        Ok(message) => {
            received.push(message);
            true
        },
        Err(_) => false,
    }
}

/// `reply` is one that the channel may give.
pub closed spec fn may_reply(
    channel: crossbeam::channel::Receiver<Vec<LeaseTable>>,
    reply: Result<Vec<LeaseTable>, crossbeam::channel::RecvError>,
) -> bool {
    exists|listener: &mut Listener|
        listener.spec_channel() == channel && #[trigger] call_ensures(receive, (listener,), reply)
}

/// A reply that a channel may give is one that it gave to some listener.
proof fn law_replies_are_received(
    channel: crossbeam::channel::Receiver<Vec<LeaseTable>>,
    reply: Reply,
)
    requires
        may_reply(channel, reply),
    ensures
        exists|listener: &mut Listener|
            listener.spec_channel() == channel && #[trigger] call_ensures(
                receive,
                (listener,),
                reply,
            ),
{
}

/// Every one of `messages` is a reply that the channel may give, and so is the
/// error that ended them.
pub open spec fn came_through(
    channel: crossbeam::channel::Receiver<Vec<LeaseTable>>,
    messages: Seq<Vec<LeaseTable>>,
) -> bool {
    &&& forall|i: int| 0 <= i < messages.len() ==> may_reply(channel, Ok(#[trigger] messages[i]))
    &&& messages.len() < usize::MAX ==> exists|error: crossbeam::channel::RecvError|
        may_reply(channel, Err(error))
}

/// Asks `source` for one reply after the other until one is an error, and hands
/// over the messages that came before it, in their order. The contract says
/// where they come from and that an error ended them; of each step, and so of
/// the order, `take_in` says what becomes of it.
pub fn receive_all<F: Fn(&S) -> Result<Vec<LeaseTable>, crossbeam::channel::RecvError>, S>(
    next: F,
    source: &S,
) -> (received: Vec<Vec<LeaseTable>>)
    requires
        call_requires(next, (source,)),
    ensures
        forall|i: int|
            0 <= i < received@.len() ==> call_ensures(
                next,
                (source,),
                Ok(#[trigger] received@[i]),
            ),
        received@.len() < usize::MAX ==> exists|error: crossbeam::channel::RecvError|
            call_ensures(next, (source,), Err(error)),
{
    let mut received: Vec<Vec<LeaseTable>> = Vec::new();
    while received.len() < usize::MAX
        invariant
            call_requires(next, (source,)),
            forall|i: int|
                0 <= i < received@.len() ==> call_ensures(
                    next,
                    (source,),
                    Ok(#[trigger] received@[i]),
                ),
        decreases usize::MAX - received.len(),
    {
        let reply = next(source);
        let ghost given = reply;
        if !take_in(&mut received, reply) {
            assert(given matches Err(error) && call_ensures(next, (source,), Err(error)));
            return received;
        }
    }
    received
}

/// Between `before` and `after`, all that was heard is `messages`, in their
/// order, and behind them the error that ended them.
pub open spec fn told(before: Seq<Reply>, after: Seq<Reply>, messages: Seq<Vec<LeaseTable>>) -> bool {
    &&& forall|i: int| 0 <= i < before.len() ==> #[trigger] after[i] == before[i]
    &&& forall|i: int|
        0 <= i < messages.len() ==> after[before.len() + i] == Ok::<
            Vec<LeaseTable>,
            crossbeam::channel::RecvError,
        >(#[trigger] messages[i])
    &&& messages.len() < usize::MAX ==> after.len() == before.len() + messages.len() + 1
        && after.last() is Err
    &&& messages.len() >= usize::MAX ==> after.len() == before.len() + messages.len()
}

/// Waits until the channel is closed, and hands over the messages that came
/// before, in their order. Which ones those are is up to the other nodes.
pub(crate) fn receive_until_closed(listener: &mut Listener) -> (received: Vec<Vec<LeaseTable>>)
    ensures
        final(listener).spec_channel() == old(listener).spec_channel(),
        came_through(old(listener).spec_channel(), received@),
        told(old(listener).heard(), final(listener).heard(), received@),
{
    let ghost before = listener.heard();
    let ghost channel = listener.spec_channel();
    let mut received: Vec<Vec<LeaseTable>> = Vec::new();
    while received.len() < usize::MAX
        invariant
            before == old(listener).heard(),
            channel == old(listener).spec_channel(),
            listener.spec_channel() == channel,
            listener.heard().len() == before.len() + received@.len(),
            forall|i: int| 0 <= i < before.len() ==> #[trigger] listener.heard()[i] == before[i],
            forall|i: int|
                0 <= i < received@.len() ==> listener.heard()[before.len() + i] == Ok::<
                    Vec<LeaseTable>,
                    crossbeam::channel::RecvError,
                >(#[trigger] received@[i]),
            forall|i: int|
                0 <= i < received@.len() ==> may_reply(channel, Ok(#[trigger] received@[i])),
        decreases usize::MAX - received.len(),
    {
        let reply = receive(listener);
        assert(may_reply(channel, reply));
        let ghost given = reply;
        if !take_in(&mut received, reply) {
            assert(given matches Err(error) && may_reply(channel, Err(error)));
            return received;
        }
    }
    received
}

} // verus!
