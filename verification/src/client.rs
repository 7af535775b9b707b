use vstd::prelude::*;
use std::sync::mpsc::Sender;

use crate::raft::log::SetCommand;

verus! {

/// The sending half of a channel of `std::sync::mpsc`, carried through unopened.
#[verifier::external_type_specification]
#[verifier::external_body]
#[verifier::reject_recursive_types(T)]
pub struct ExSender<T>(Sender<T>);

/// A client that submits commands to the cluster over a channel.
pub struct Client {
    sender: Sender<SetCommand>,
}

impl Client {
    /// The channel the client sends its commands on.
    pub closed spec fn channel(self) -> Sender<SetCommand> {
        self.sender
    }

    /// A client that sends its commands on `sender`.
    pub fn new(sender: Sender<SetCommand>) -> (client: Self)
        ensures
            client.channel() == sender,
    {
        Self { sender }
    }
}

} // verus!
