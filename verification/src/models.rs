//! The stored data model shared by the repositories: message rows, their
//! status, and the error kinds repository callers see.
use vstd::prelude::*;

use crate::messages::{ascii_str_eq, clone_bytes};

verus! {

/// Where a user-visible mail stands in its life cycle.
#[derive(Clone, Copy, PartialEq, Eq, Structural, Debug)]
pub enum MessageStatus {
    WaitingForPubkey,
    WaitingForPOW,
    Sent,
    Received,
    Unknown,
}

/// The text a status is stored and displayed as.
pub open spec fn spec_status_text(s: MessageStatus) -> Seq<char> {
    match s {
        MessageStatus::WaitingForPubkey => "WaitingForPubkey"@,
        MessageStatus::WaitingForPOW => "WaitingForPOW"@,
        MessageStatus::Sent => "Sent"@,
        MessageStatus::Received => "Received"@,
        MessageStatus::Unknown => "Unknown"@,
    }
}

impl MessageStatus {
    /// The stored text of this status.
    pub fn as_text(&self) -> (r: String)
        ensures
            r@ == spec_status_text(*self),
    {
        match self {
            MessageStatus::WaitingForPubkey => "WaitingForPubkey".to_owned(),
            MessageStatus::WaitingForPOW => "WaitingForPOW".to_owned(),
            MessageStatus::Sent => "Sent".to_owned(),
            MessageStatus::Received => "Received".to_owned(),
            MessageStatus::Unknown => "Unknown".to_owned(),
        }
    }

    /// The status a stored text denotes; anything unrecognised is `Unknown`.
    pub fn from_text(s: &str) -> (r: MessageStatus)
        requires
            s.is_ascii(),
        ensures
            spec_status_text(r) == s@ || (r == MessageStatus::Unknown && (forall|
                m: MessageStatus,
            |
                m != MessageStatus::Unknown ==> spec_status_text(m) != s@)),
    {
        proof {
            reveal_strlit("WaitingForPubkey");
            reveal_strlit("WaitingForPOW");
            reveal_strlit("Sent");
            reveal_strlit("Received");
            reveal_strlit("Unknown");
        }
        if ascii_str_eq(s, "WaitingForPubkey") {
            MessageStatus::WaitingForPubkey
        } else if ascii_str_eq(s, "WaitingForPOW") {
            MessageStatus::WaitingForPOW
        } else if ascii_str_eq(s, "Sent") {
            MessageStatus::Sent
        } else if ascii_str_eq(s, "Received") {
            MessageStatus::Received
        } else {
            MessageStatus::Unknown
        }
    }
}

/// A user-visible mail as stored: keyed by `hash`, addressed by base58
/// display strings, with its creation time in Unix seconds.
pub struct Message {
    pub hash: String,
    pub sender: String,
    pub recipient: String,
    pub data: Vec<u8>,
    pub created_at: i64,
    pub status: MessageStatus,
    pub signature: Vec<u8>,
}

#[verifier::ext_equal]
pub struct MessageView {
    pub hash: Seq<char>,
    pub sender: Seq<char>,
    pub recipient: Seq<char>,
    pub data: Seq<u8>,
    pub created_at: int,
    pub status: MessageStatus,
    pub signature: Seq<u8>,
}

impl View for Message {
    type V = MessageView;

    open spec fn view(&self) -> MessageView {
        MessageView {
            hash: self.hash@,
            sender: self.sender@,
            recipient: self.recipient@,
            data: self.data@,
            created_at: self.created_at as int,
            status: self.status,
            signature: self.signature@,
        }
    }
}

impl Clone for Message {
    fn clone(&self) -> (r: Self)
        ensures
            r@ == self@,
    {
        let r = Message {
            hash: self.hash.clone(),
            sender: self.sender.clone(),
            recipient: self.recipient.clone(),
            data: clone_bytes(&self.data),
            created_at: self.created_at,
            status: self.status,
            signature: clone_bytes(&self.signature),
        };
        assert(r@ == self@);
        r
    }
}

/// The failure kinds the node surfaces to its callers.
#[derive(Clone, Copy, PartialEq, Eq, Structural, Debug)]
pub enum NodeError {
    /// A store rejected the operation (duplicate key or broken constraint).
    Repository,
    /// Bytes did not decode to the expected value.
    Decode,
    /// A cryptographic operation failed (bad key, bad ciphertext).
    Crypto,
    /// The named identity, contact, or message does not exist.
    NotFound,
    /// A command argument was rejected.
    Validation,
}

impl NodeError {
    /// A human-readable description of the failure.
    pub fn message(&self) -> String {
        match self {
            NodeError::Repository => "repository rejected the operation".to_owned(),
            NodeError::Decode => "malformed encoding".to_owned(),
            NodeError::Crypto => "cryptographic operation failed".to_owned(),
            NodeError::NotFound => "no such entity".to_owned(),
            NodeError::Validation => "invalid argument".to_owned(),
        }
    }
}

} // verus!
