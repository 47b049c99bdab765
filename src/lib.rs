//! Reassembly of station heartbeats from short satellite burst messages.
//!
//! Heartbeats arrive split over several messages, in one of two wire formats.
//! The builders here classify, accumulate and check those messages, and turn a
//! complete accumulation into a `Heartbeat`.
use vstd::prelude::*;

pub mod builder;
pub mod clock;
pub mod full_record;
pub mod heartbeat;
pub mod message;
pub mod order;
pub mod source;
pub mod sutron;
pub mod text;
pub mod units;
pub mod watch;

use crate::message::RawMessage;

verus! {

/// What can go wrong while reassembling heartbeats.
#[derive(Debug, PartialEq, Eq)]
pub enum Error {
    /// This message could not be used, so here it is back.
    RejectedMessage(RawMessage),
    /// A Format-One field, by its index, is missing or does not parse.
    BadField(usize),
    /// A Format-Two row, by its line index in the body, is missing, too short,
    /// or holds a value that does not parse.
    BadRow(usize),
    /// The skip reason code was not a known value (code, description).
    UnknownSkipReason(Vec<u8>, Vec<u8>),
    /// The fuel cell action word was not a known value.
    UnknownEfoyAction(Vec<u8>),
}

/// What an `Error` says, with its texts as byte sequences.
pub enum Failure {
    Rejected(RawMessage),
    BadField(usize),
    BadRow(usize),
    UnknownSkipReason(Seq<u8>, Seq<u8>),
    UnknownEfoyAction(Seq<u8>),
}

impl View for Error {
    type V = Failure;

    open spec fn view(&self) -> Failure {
        match self {
            Error::RejectedMessage(m) => Failure::Rejected(*m),
            Error::BadField(i) => Failure::BadField(*i),
            Error::BadRow(i) => Failure::BadRow(*i),
            Error::UnknownSkipReason(c, d) => Failure::UnknownSkipReason(c@, d@),
            Error::UnknownEfoyAction(w) => Failure::UnknownEfoyAction(w@),
        }
    }
}

} // verus!
