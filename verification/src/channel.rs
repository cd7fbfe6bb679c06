//! Channel ends labelled with the party that consumes what is sent.
//!
//! A channel is an unbounded queue of `crossbeam_channel`. Its consuming end
//! has one owner and is never duplicated; its producing end may be duplicated
//! freely, and every duplicate feeds the same queue.

use crate::topology::NodeId;
use crossbeam_channel::{Receiver, Sender};
use vstd::prelude::*;

verus! {

/// Who consumes from a channel.
#[derive(Clone, Copy, Debug, PartialEq, Eq, Structural)]
pub enum Party {
    Node(NodeId),
    Controller,
}

/// `crossbeam_channel::Sender`, the producing end of a channel. Nothing is
/// claimed of what a value of it holds.
#[verifier::external_type_specification]
#[verifier::external_body]
#[verifier::reject_recursive_types(T)]
pub struct ExSender<T>(Sender<T>);

/// `crossbeam_channel::Receiver`, the consuming end of a channel. Nothing is
/// claimed of what a value of it holds.
#[verifier::external_type_specification]
#[verifier::external_body]
#[verifier::reject_recursive_types(T)]
pub struct ExReceiver<T>(Receiver<T>);

/// `crossbeam_channel::unbounded` creates a channel and returns its two ends.
/// Nothing is claimed of them.
pub assume_specification<T>[ crossbeam_channel::unbounded::<T> ]() -> (ends: (
    Sender<T>,
    Receiver<T>,
));

/// `Clone::clone` of `crossbeam_channel::Sender` returns another producing end.
/// Nothing is claimed of it. The call ends the process once more than
/// `isize::MAX` producing ends of one channel are alive.
pub assume_specification<T>[ <Sender<T> as Clone>::clone ](sender: &Sender<T>) -> (copy: Sender<T>);

/// A producing end, labelled with the party that consumes what it sends.
#[verifier::reject_recursive_types(T)]
#[derive(Debug)]
pub struct Producer<T> {
    target: Party,
    sender: Sender<T>,
}

/// The consuming end of a channel, labelled with its owner.
#[verifier::reject_recursive_types(T)]
#[derive(Debug)]
pub struct Consumer<T> {
    owner: Party,
    receiver: Receiver<T>,
}

impl<T> Producer<T> {
    /// The party that consumes what this end sends.
    pub closed spec fn target(&self) -> Party {
        self.target
    }

    /// The producing end of `crossbeam_channel` that is held under the label.
    pub closed spec fn sender(&self) -> Sender<T> {
        self.sender
    }

    /// The party that consumes what this end sends.
    pub fn feeds(&self) -> (party: Party)
        ensures
            party == self.target(),
    {
        self.target
    }

    /// Another producing end of the same channel.
    pub fn duplicate(&self) -> (copy: Producer<T>)
        ensures
            copy.target() == self.target(),
    {
        Producer { target: self.target, sender: self.sender.clone() }
    }

    /// Gives up the label and hands out the producing end that was held.
    pub fn into_sender(self) -> (sender: Sender<T>)
        ensures
            sender == self.sender(),
    {
        self.sender
    }
}

impl<T> Consumer<T> {
    /// The party that owns this end.
    pub closed spec fn owner(&self) -> Party {
        self.owner
    }

    /// The consuming end of `crossbeam_channel` that is held under the label.
    pub closed spec fn receiver(&self) -> Receiver<T> {
        self.receiver
    }

    /// The party that owns this end.
    pub fn owned_by(&self) -> (party: Party)
        ensures
            party == self.owner(),
    {
        self.owner
    }

    /// Gives up the label and hands out the consuming end that was held.
    pub fn into_receiver(self) -> (receiver: Receiver<T>)
        ensures
            receiver == self.receiver(),
    {
        self.receiver
    }
}

/// Opens a channel whose consuming end belongs to `owner`.
pub fn open_channel<T>(owner: Party) -> (ends: (Producer<T>, Consumer<T>))
    ensures
        ends.0.target() == owner,
        ends.1.owner() == owner,
{
    let (sender, receiver) = crossbeam_channel::unbounded::<T>();
    (Producer { target: owner, sender }, Consumer { owner, receiver })
}

} // verus!
