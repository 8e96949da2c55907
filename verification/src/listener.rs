//! The end of a channel at which a limiter hears from the other nodes, and the
//! record of all it has heard there.

use vstd::prelude::*;

use crate::table::LeaseTable;

verus! {

/// What a channel answers when it is asked for the next message.
pub type Reply = Result<Vec<LeaseTable>, crossbeam::channel::RecvError>;

/// A receiving end, and every reply that it has given so far.
pub struct Listener {
    channel: crossbeam::channel::Receiver<Vec<LeaseTable>>,
    heard: Ghost<Seq<Reply>>,
}

impl Listener {
    pub closed spec fn spec_channel(self) -> crossbeam::channel::Receiver<Vec<LeaseTable>> {
        self.channel
    }

    /// The replies so far, from the first to the last.
    pub closed spec fn heard(self) -> Seq<Reply> {
        self.heard@
    }

    /// A listener at `channel` that has heard nothing yet.
    pub(crate) fn new(channel: crossbeam::channel::Receiver<Vec<LeaseTable>>) -> (listener: Self)
        ensures
            listener.spec_channel() == channel,
            listener.heard() == Seq::<Reply>::empty(),
    {
        Listener { channel, heard: Ghost(Seq::empty()) }
    }

    /// The receiving end.
    pub(crate) fn channel(&self) -> (channel: &crossbeam::channel::Receiver<Vec<LeaseTable>>)
        ensures
            *channel == self.spec_channel(),
    {
        &self.channel
    }
}

} // verus!
