//! The node worker's state machine: local commands, the send pipeline, the
//! pubkey-notification path, proof-of-work completion, and startup
//! recovery. The transport performs the returned actions; everything that
//! decides is here.
use vstd::prelude::*;

use crate::address::{spec_deserialize_address, spec_tag, Address, AddressRecordView};
use crate::crypto::{
    base58_encode, base58_of, ecies_decrypt_of, pubkey_of, random_alphanumeric, secret_key_ok,
    sign_of,
};
use crate::handler::Handler;
use crate::messages::{
    spec_enc_unenc_msg, MessageCommand, MessagePayload, NetworkMessage, Object, ObjectView,
};
use crate::models::{Message, MessageStatus, MessageView, NodeError};
use crate::pipeline::{create_object_from_msg, spec_unenc_msg_of, MSG_TTL_SECONDS};
use crate::pow_queue::PowQueue;
use crate::crypto::base58_decode_of;
use crate::repo_address::{first_matching, rec_matches};
use crate::repo_inventory::{advertised, hashes_of, strs_view};
use crate::repo_message::msgs_has;

verus! {

/// Which mailbox a message listing asks for.
#[derive(Clone, Copy, PartialEq, Eq, Structural, Debug)]
pub enum Folder {
    Inbox,
    Sent,
}

/// Work the node hands to its transport and proof-of-work runner.
pub enum NodeAction {
    /// Publish a message on the gossip topic.
    Publish { message: NetworkMessage },
    /// Run the proof-of-work search on this object.
    StartPow { object: Object },
}

/// The local commands the worker executes.
pub enum WorkerCommand {
    NonceCalculated { obj: Object },
    GetOwnIdentities,
    GenerateIdentity { label: String },
    RenameIdentity { new_label: String, address: String },
    DeleteIdentity { address: String },
    GetMessages { address: String, folder: Folder },
    SendMessage { msg: Message, from: String },
    BroadcastMsgByPubSub { msg: NetworkMessage },
}

/// What a command returns to its caller.
pub enum CommandReply {
    Done,
    StringValue { value: String },
    Identities { identities: Vec<Address> },
    Messages { messages: Vec<Message> },
    Failed { error: NodeError },
}

/// A proof-of-work job was emitted for `o`: either queued behind the
/// running search, or started at once.
pub open spec fn job_emitted(
    before: PowQueue,
    after: PowQueue,
    actions: Seq<NodeAction>,
    o: ObjectView,
) -> bool {
    ||| after.jobs() == before.jobs().push(o)
    ||| (exists|i: int|
        0 <= i < actions.len() && ((#[trigger] actions[i]) matches NodeAction::StartPow { object }
            && object@ == o))
}

/// Every queued proof-of-work job stays queued.
pub open spec fn jobs_retained(pre: PowQueue, post: PowQueue) -> bool {
    forall|o: ObjectView| pre.jobs().contains(o) ==> #[trigger] post.jobs().contains(o)
}

/// A proof-of-work job for `o` stands somewhere: still queued, or started
/// through an action.
pub open spec fn job_listed(pow: PowQueue, actions: Seq<NodeAction>, o: ObjectView) -> bool {
    ||| pow.jobs().contains(o)
    ||| (exists|i: int|
        0 <= i < actions.len() && ((#[trigger] actions[i]) matches NodeAction::StartPow { object }
            && object@ == o))
}

/// The first row matching `key` holds both public keys.
pub open spec fn recipient_keyed(addresses: Seq<AddressRecordView>, key: Seq<char>) -> bool {
    exists|k: int|
        #[trigger] first_matching(addresses, key, k) && addresses[k].public_signing_key is Some
            && addresses[k].public_encryption_key is Some
}

/// A cause the send pipeline is allowed to fail on with a `Crypto` error:
/// the sender's row lacks a public signing key or a valid private signing
/// key, or the keyed recipient's stored encryption key is no derived public
/// key, or the plaintext is over the encryption size cap.
pub open spec fn send_crypto_cause(
    addresses: Seq<AddressRecordView>,
    msgv: MessageView,
    fromv: Seq<char>,
) -> bool {
    exists|ik: int|
        #[trigger] first_matching(addresses, fromv, ik) && {
            let iv = spec_deserialize_address(addresses[ik])->0;
            ||| iv.public_signing_key is None
            ||| !(iv.private_signing_key matches Some(sk) && secret_key_ok(sk))
            ||| (exists|rk: int|
                #[trigger] first_matching(addresses, msgv.recipient, rk) && {
                    let rv = spec_deserialize_address(addresses[rk])->0;
                    ||| !(exists|ek: Seq<u8>|
                        secret_key_ok(ek) && #[trigger] pubkey_of(ek)
                            == rv.public_encryption_key->0)
                    ||| spec_enc_unenc_msg(spec_unenc_msg_of(msgv, iv, rv)).len()
                        >= 0x1_0000_0000
                })
        }
}

/// What a completed send owes: exactly one mail row appended, carrying the
/// given sender, recipient and body. With a fully keyed recipient the row
/// is WaitingForPOW, keyed by the built Msg object's hash; that object is
/// queued, signed by the first row matching `fromv`, and its envelope opens
/// under the recipient row's encryption key to exactly the mail's plaintext.
/// Otherwise the row is WaitingForPubkey under a random 16-character key,
/// the recipient's tag is newly tracked, a signed Getpubkey object carrying
/// the tag derived from the recipient string is queued, and an unknown
/// recipient gains a skeleton address row. Which branch was taken is
/// decided by whether the first row matching the recipient holds both
/// public keys.
pub open spec fn send_outcome(
    pre: NodeWorker,
    post: NodeWorker,
    msgv: MessageView,
    fromv: Seq<char>,
    actions: Seq<NodeAction>,
    now: int,
) -> bool {
    &&& post.handler.messages@.len() == pre.handler.messages@.len() + 1
    &&& (forall|k: int|
        0 <= k < pre.handler.messages@.len() ==> #[trigger] post.handler.messages@[k]
            == pre.handler.messages@[k])
    &&& ({
        let row = post.handler.messages@.last();
        &&& row.sender == msgv.sender
        &&& row.recipient == msgv.recipient
        &&& row.data == msgv.data
        &&& (row.status == MessageStatus::WaitingForPOW || row.status
            == MessageStatus::WaitingForPubkey)
        &&& (row.status == MessageStatus::WaitingForPOW ==> exists|o: ObjectView|
            {
                &&& #[trigger] job_emitted(pre.pow, post.pow, actions, o)
                &&& o.kind is Msg
                &&& o.expires == now + MSG_TTL_SECONDS
                &&& row.hash == base58_of(o.hash)
                &&& post.tracked_pubkeys == pre.tracked_pubkeys
                &&& post.handler.addresses@ == pre.handler.addresses@
                &&& recipient_keyed(pre.handler.addresses@, msgv.recipient)
                &&& (exists|ik: int, rk: int|
                    #![trigger pre.handler.addresses@[ik], pre.handler.addresses@[rk]]
                    {
                        let iv = spec_deserialize_address(pre.handler.addresses@[ik])->0;
                        let rv = spec_deserialize_address(pre.handler.addresses@[rk])->0;
                        &&& first_matching(pre.handler.addresses@, fromv, ik)
                        &&& first_matching(pre.handler.addresses@, msgv.recipient, rk)
                        &&& iv.private_signing_key is Some
                        &&& o.signature == sign_of(iv.private_signing_key->0, o.hash)
                        &&& (forall|sk: Seq<u8>|
                            pubkey_of(sk) == rv.public_encryption_key->0 ==> ecies_decrypt_of(
                                sk,
                                o.kind->Msg_encrypted,
                            ) == Some(spec_enc_unenc_msg(spec_unenc_msg_of(msgv, iv, rv))))
                    })
            })
        &&& (row.status == MessageStatus::WaitingForPubkey ==> exists|o: ObjectView|
            {
                &&& #[trigger] job_emitted(pre.pow, post.pow, actions, o)
                &&& o.kind is Getpubkey
                &&& o.expires == now + MSG_TTL_SECONDS
                &&& row.hash.len() == 16
                &&& post.tracked_pubkeys@.len() == pre.tracked_pubkeys@.len() + 1
                &&& strs_view(post.tracked_pubkeys@).last() == base58_of(o.kind->Getpubkey_tag)
                &&& !recipient_keyed(pre.handler.addresses@, msgv.recipient)
                &&& (base58_decode_of(msgv.recipient) matches Some(rp)
                    && o.kind->Getpubkey_tag == spec_tag(rp))
                &&& (exists|ik: int|
                    #![trigger pre.handler.addresses@[ik]]
                    {
                        let iv = spec_deserialize_address(pre.handler.addresses@[ik])->0;
                        &&& first_matching(pre.handler.addresses@, fromv, ik)
                        &&& iv.private_signing_key is Some
                        &&& o.signature == sign_of(iv.private_signing_key->0, o.hash)
                    })
                &&& ((forall|q: int|
                    0 <= q < pre.handler.addresses@.len() ==> !rec_matches(
                        #[trigger] pre.handler.addresses@[q],
                        msgv.recipient,
                    )) ==> {
                    &&& post.handler.addresses@.len() == pre.handler.addresses@.len() + 1
                    &&& post.handler.addresses@.last().address == msgv.recipient
                    &&& post.handler.addresses@.last().public_signing_key is None
                    &&& post.handler.addresses@.last().public_encryption_key is None
                    &&& post.handler.addresses@.last().private_signing_key is None
                    &&& post.handler.addresses@.last().private_encryption_key is None
                })
            })
    })
}

/// What any failed send leaves behind: the inventory and the job queue
/// untouched, at most one skeleton address row appended, at most one mail
/// row appended (carrying the given mail), and at most one tag tracked.
pub open spec fn send_failure_frame(pre: NodeWorker, post: NodeWorker, msgv: MessageView) -> bool {
    &&& post.handler.inventory@ == pre.handler.inventory@
    &&& post.pow == pre.pow
    &&& pre.handler.addresses@.len() <= post.handler.addresses@.len()
        <= pre.handler.addresses@.len() + 1
    &&& (forall|k: int|
        0 <= k < pre.handler.addresses@.len() ==> #[trigger] post.handler.addresses@[k]
            == pre.handler.addresses@[k])
    &&& (post.handler.addresses@.len() > pre.handler.addresses@.len()
        ==> post.handler.addresses@.last().address == msgv.recipient)
    &&& pre.handler.messages@.len() <= post.handler.messages@.len() <= pre.handler.messages@.len()
        + 1
    &&& (forall|k: int|
        0 <= k < pre.handler.messages@.len() ==> #[trigger] post.handler.messages@[k]
            == pre.handler.messages@[k])
    &&& (post.handler.messages@.len() > pre.handler.messages@.len() ==> {
        let row = post.handler.messages@.last();
        &&& row.sender == msgv.sender
        &&& row.recipient == msgv.recipient
        &&& row.data == msgv.data
    })
    &&& (post.tracked_pubkeys@ == pre.tracked_pubkeys@ || post.tracked_pubkeys@
        == pre.tracked_pubkeys@.push(post.tracked_pubkeys@.last()))
}

/// What a send reply owes in every case: `Done` carries the send outcome;
/// the library's own errors come exactly when owed — NotFound if and only
/// if `from` names no stored row, Validation only for (and surely on) a
/// recipient that is not base58 and matches nothing.
pub open spec fn send_reply_owed(
    pre: NodeWorker,
    post: NodeWorker,
    msgv: MessageView,
    fromv: Seq<char>,
    reply: CommandReply,
    actions: Seq<NodeAction>,
    now: int,
) -> bool {
    &&& (match reply {
        CommandReply::Done => send_outcome(pre, post, msgv, fromv, actions, now),
        CommandReply::Failed { error } => {
            &&& send_failure_frame(pre, post, msgv)
            &&& (error == NodeError::NotFound ==> (forall|k: int|
                0 <= k < pre.handler.addresses@.len() ==> !rec_matches(
                    #[trigger] pre.handler.addresses@[k],
                    fromv,
                )) && post == pre)
            &&& (error == NodeError::Validation ==> base58_decode_of(msgv.recipient) is None
                && !recipient_keyed(pre.handler.addresses@, msgv.recipient) && post == pre)
            &&& (error == NodeError::Crypto ==> send_crypto_cause(
                pre.handler.addresses@,
                msgv,
                fromv,
            ))
            &&& (error == NodeError::NotFound || error == NodeError::Validation || error
                == NodeError::Crypto || error == NodeError::Repository)
        },
        _ => false,
    })
    &&& ((forall|k: int|
        0 <= k < pre.handler.addresses@.len() ==> !rec_matches(
            #[trigger] pre.handler.addresses@[k],
            fromv,
        )) ==> reply == (CommandReply::Failed { error: NodeError::NotFound }))
    &&& (((exists|k: int|
        0 <= k < pre.handler.addresses@.len() && rec_matches(
            #[trigger] pre.handler.addresses@[k],
            fromv,
        )) && !recipient_keyed(pre.handler.addresses@, msgv.recipient) && base58_decode_of(
        msgv.recipient,
    ) is None) ==> reply == (CommandReply::Failed { error: NodeError::Validation }))
}

/// What a completed proof of work owes: the nonce recorded on the object's
/// inventory row, a carried mail (for Msg objects) marked Sent, and the
/// full advertised inventory re-offered on the gossip topic.
pub open spec fn nonce_outcome(
    pre: NodeWorker,
    post: NodeWorker,
    objv: ObjectView,
    actions: Seq<NodeAction>,
    now: int,
) -> bool {
    &&& post.handler.inventory@.len() == pre.handler.inventory@.len()
    &&& (forall|k: int|
        #![trigger post.handler.inventory@[k]]
        0 <= k < pre.handler.inventory@.len() ==> post.handler.inventory@[k] == (if pre.handler.inventory@[k].hash
            == base58_of(objv.hash) {
            crate::repo_inventory::InvRowView {
                hash: pre.handler.inventory@[k].hash,
                object: ObjectView { nonce: objv.nonce, ..pre.handler.inventory@[k].object },
            }
        } else {
            pre.handler.inventory@[k]
        }))
    &&& post.handler.messages@.len() == pre.handler.messages@.len()
    &&& (forall|k: int|
        #![trigger post.handler.messages@[k]]
        0 <= k < pre.handler.messages@.len() ==> post.handler.messages@[k] == (if objv.kind is Msg
            && pre.handler.messages@[k].hash == base58_of(objv.hash) {
            MessageView { status: MessageStatus::Sent, ..pre.handler.messages@[k] }
        } else {
            pre.handler.messages@[k]
        }))
    &&& (exists|i: int|
        0 <= i < actions.len() && ((#[trigger] actions[i]) matches NodeAction::Publish { message }
            && message@.command == MessageCommand::Inv && (
        message@.payload matches crate::messages::PayloadView::Inv { inventory } && inventory
            == hashes_of(post.handler.inventory@.filter(advertised(now))))))
}

/// The node worker: the protocol handler with its stores, the set of tags
/// with mails waiting for a pubkey, the proof-of-work queue, and the
/// callers still waiting to learn a listen address.
pub struct NodeWorker {
    pub handler: Handler,
    pub tracked_pubkeys: Vec<String>,
    pub pow: PowQueue,
    pub pending_listener_requests: Vec<u64>,
}

impl NodeWorker {
    pub open spec fn wf(&self) -> bool {
        &&& self.handler.wf()
        &&& self.pow.wf()
    }

    /// A fresh worker around empty stores.
    pub fn new(handler: Handler) -> (r: NodeWorker)
        requires
            handler.wf(),
        ensures
            r.wf(),
            r.handler == handler,
            r.tracked_pubkeys@.len() == 0,
            r.pow.jobs().len() == 0,
            !r.pow.running(),
    {
        NodeWorker {
            handler,
            tracked_pubkeys: Vec::new(),
            pow: PowQueue::new(),
            pending_listener_requests: Vec::new(),
        }
    }

    /// A caller asked for the listen address. With one known it is answered
    /// at once; otherwise the caller's ticket waits for the first
    /// listen-address event.
    pub fn request_listener_address(&mut self, ticket: u64, known: Option<String>) -> (r: Option<
        String,
    >)
        ensures
            final(self).handler == old(self).handler,
            match known {
                Some(addr) => r == Some(addr) && final(self).pending_listener_requests@ == old(
                    self,
                ).pending_listener_requests@,
                None => r is None && final(self).pending_listener_requests@ == old(
                    self,
                ).pending_listener_requests@.push(ticket),
            },
    {
        match known {
            Some(addr) => Some(addr),
            None => {
                self.pending_listener_requests.push(ticket);
                None
            },
        }
    }

    /// The transport bound a listen address: every waiting caller is
    /// answered with it and the pending queue empties.
    pub fn on_listener_address(&mut self, address: String) -> (r: Vec<(u64, String)>)
        ensures
            final(self).handler == old(self).handler,
            final(self).pending_listener_requests@.len() == 0,
            r@.len() == old(self).pending_listener_requests@.len(),
            forall|k: int|
                0 <= k < r@.len() ==> (#[trigger] r@[k]).0 == old(
                    self,
                ).pending_listener_requests@[k] && r@[k].1@ == address@,
    {
        let mut replies: Vec<(u64, String)> = Vec::new();
        let n = self.pending_listener_requests.len();
        let mut k: usize = 0;
        while k < n
            invariant
                k <= n,
                n == self.pending_listener_requests@.len(),
                self.pending_listener_requests@ == old(self).pending_listener_requests@,
                self.handler == old(self).handler,
                replies@.len() == k,
                forall|q: int|
                    0 <= q < k ==> (#[trigger] replies@[q]).0 == old(
                        self,
                    ).pending_listener_requests@[q] && replies@[q].1@ == address@,
            decreases n - k,
        {
            replies.push((self.pending_listener_requests[k], address.clone()));
            k = k + 1;
        }
        self.pending_listener_requests = Vec::new();
        replies
    }

    /// Store an object (awaiting proof of work) and submit it to the queue.
    fn store_and_enqueue(&mut self, object: Object, actions: &mut Vec<NodeAction>) -> (r: Result<
        (),
        NodeError,
    >)
        requires
            old(self).wf(),
        ensures
            final(self).wf(),
            final(self).handler.addresses == old(self).handler.addresses,
            final(self).handler.messages == old(self).handler.messages,
            final(self).tracked_pubkeys == old(self).tracked_pubkeys,
            final(actions)@.len() >= old(actions)@.len(),
            forall|k: int| 0 <= k < old(actions)@.len() ==> final(actions)@[k] == old(actions)@[k],
            jobs_retained(old(self).pow, final(self).pow),
            match r {
                Ok(()) => {
                    &&& job_emitted(old(self).pow, final(self).pow, final(actions)@, object@)
                    &&& !crate::repo_inventory::inv_has(
                        old(self).handler.inventory@,
                        base58_of(object@.hash),
                    )
                    &&& final(self).handler.inventory@ == old(self).handler.inventory@.push(
                        crate::repo_inventory::InvRowView {
                            hash: base58_of(object@.hash),
                            object: object@,
                        },
                    )
                },
                Err(e) => {
                    &&& e == NodeError::Repository
                    &&& final(self).pow == old(self).pow
                    &&& final(self).handler.inventory@ == old(self).handler.inventory@
                    &&& crate::repo_inventory::inv_has(
                        old(self).handler.inventory@,
                        base58_of(object@.hash),
                    )
                },
            },
    {
        let ghost jobspre = self.pow.jobs();
        match self.handler.inventory.store_object(object.clone()) {
            Ok(_) => {},
            Err(_) => {
                return Err(NodeError::Repository);
            },
        }
        match self.pow.enqueue_pow(object) {
            Some(start) => {
                let ghost apre = actions@;
                actions.push(NodeAction::StartPow { object: start });
                proof {
                    assert(actions@[apre.len() as int] matches NodeAction::StartPow { .. });
                }
            },
            None => {},
        }
        proof {
            assert forall|o: ObjectView| jobspre.contains(o) implies #[trigger] self.pow.jobs().contains(
                o,
            ) by {
                let i0 = choose|i0: int| 0 <= i0 < jobspre.len() && jobspre[i0] == o;
                assert(self.pow.jobs()[i0] == o);
            }
        }
        Ok(())
    }

    /// The send pipeline. With a fully keyed recipient the mail goes out
    /// directly: its row is stored as WaitingForPOW, keyed by the built
    /// object's hash, and the object is queued for proof of work. With an
    /// unknown or keyless recipient the row is stored as WaitingForPubkey
    /// under a random 16-character key, the recipient's tag is tracked, and
    /// a Getpubkey object for that tag is queued instead.
    pub fn send_message(&mut self, msg: Message, from: String, now: i64) -> (r: (
        CommandReply,
        Vec<NodeAction>,
    ))
        requires
            old(self).wf(),
            msg.sender.is_ascii(),
            msg.recipient.is_ascii(),
            now + MSG_TTL_SECONDS <= i64::MAX,
        ensures
            final(self).wf(),
            send_reply_owed(*old(self), *final(self), msg@, from@, r.0, r.1@, now as int),
    {
        let ghost fromv = from@;
        let ghost msgv = msg@;
        let mut actions: Vec<NodeAction> = Vec::new();
        let identity = match self.handler.addresses.get_by_ripe_or_tag(from) {
            Some(a) => a,
            None => {
                return (CommandReply::Failed { error: NodeError::NotFound }, actions);
            },
        };
        let ghost addrpre = self.handler.addresses@;
        let ghost ikw = choose|k: int|
            #![trigger self.handler.addresses@[k]]
            {
                &&& 0 <= k < self.handler.addresses@.len()
                &&& rec_matches(self.handler.addresses@[k], fromv)
                &&& Some(identity@) == spec_deserialize_address(self.handler.addresses@[k])
                &&& forall|q: int|
                    0 <= q < k ==> !rec_matches(#[trigger] self.handler.addresses@[q], fromv)
            };
        proof {
            assert(first_matching(addrpre, fromv, ikw));
        }
        let recipient = self.handler.addresses.get_by_ripe_or_tag(msg.recipient.clone());
        let ghost rkw: int = if recipient is Some {
            choose|k: int|
                #![trigger self.handler.addresses@[k]]
                {
                    &&& 0 <= k < self.handler.addresses@.len()
                    &&& rec_matches(self.handler.addresses@[k], msgv.recipient)
                    &&& Some(recipient->0@) == spec_deserialize_address(
                        self.handler.addresses@[k],
                    )
                    &&& forall|q: int|
                        0 <= q < k ==> !rec_matches(
                            #[trigger] self.handler.addresses@[q],
                            msgv.recipient,
                        )
                }
        } else {
            0
        };
        proof {
            if recipient is Some {
                assert(first_matching(addrpre, msgv.recipient, rkw));
                assert forall|k0: int| #[trigger]
                    first_matching(addrpre, msgv.recipient, k0) implies k0 == rkw by {
                    if k0 < rkw {
                        assert(!rec_matches(addrpre[k0], msgv.recipient));
                    }
                    if rkw < k0 {
                        assert(!rec_matches(addrpre[rkw], msgv.recipient));
                    }
                }
            } else {
                assert forall|k0: int| #[trigger]
                    first_matching(addrpre, msgv.recipient, k0) implies false by {
                    assert(rec_matches(addrpre[k0], msgv.recipient));
                }
            }
        }
        let fully_keyed = match &recipient {
            Some(a) => match (&a.public_signing_key, &a.public_encryption_key) {
                (Some(_), Some(_)) => true,
                _ => false,
            },
            None => false,
        };
        proof {
            if fully_keyed {
                assert(recipient_keyed(addrpre, msg.recipient@)) by {
                    assert((recipient->0)@.public_signing_key is Some);
                    assert(addrpre[rkw].public_signing_key == (recipient->0)@.public_signing_key);
                    assert(first_matching(addrpre, msg.recipient@, rkw));
                }
            } else {
                assert(!recipient_keyed(addrpre, msg.recipient@)) by {
                    if recipient_keyed(addrpre, msg.recipient@) {
                        let k0 = choose|k0: int|
                            #[trigger] first_matching(addrpre, msg.recipient@, k0)
                                && addrpre[k0].public_signing_key is Some
                                && addrpre[k0].public_encryption_key is Some;
                        assert(recipient is Some);
                        assert(k0 == rkw);
                        assert((recipient->0)@.public_signing_key
                            == addrpre[rkw].public_signing_key);
                        assert((recipient->0)@.public_encryption_key
                            == addrpre[rkw].public_encryption_key);
                    }
                }
            }
        }
        if fully_keyed {
            let rec = match recipient {
                Some(a) => a,
                None => {
                    proof {
                        assert(false);
                    }
                    return (CommandReply::Failed { error: NodeError::NotFound }, actions);
                },
            };
            if identity.public_signing_key.is_none() {
                proof {
                    assert(spec_deserialize_address(addrpre[ikw])->0 == identity@);
                    assert(send_crypto_cause(addrpre, msgv, fromv));
                }
                return (CommandReply::Failed { error: NodeError::Crypto }, actions);
            }
            let object = match create_object_from_msg(&identity, &rec, &msg, now) {
                Some(o) => o,
                None => {
                    proof {
                        assert(spec_deserialize_address(addrpre[ikw])->0 == identity@);
                        assert(spec_deserialize_address(addrpre[rkw])->0 == rec@);
                        assert(first_matching(addrpre, fromv, ikw));
                        assert(first_matching(addrpre, msgv.recipient, rkw));
                        assert(send_crypto_cause(addrpre, msgv, fromv));
                    }
                    return (CommandReply::Failed { error: NodeError::Crypto }, actions);
                },
            };
            let hash = base58_encode(object.hash.as_slice());
            let row = Message { hash, status: MessageStatus::WaitingForPOW, ..msg };
            let ghost rowv = row@;
            let ghost ov = object@;
            match self.handler.messages.save_model(row) {
                Ok(()) => {},
                Err(e) => {
                    return (CommandReply::Failed { error: e }, actions);
                },
            }
            match self.store_and_enqueue(object, &mut actions) {
                Ok(()) => {},
                Err(e) => {
                    return (CommandReply::Failed { error: e }, actions);
                },
            }
            let result = (CommandReply::Done, actions);
            proof {
                assert(self.handler.messages@.last() == rowv);
                assert(job_emitted(old(self).pow, self.pow, result.1@, ov) && ov.kind is Msg
                    && ov.expires == now + MSG_TTL_SECONDS && rowv.hash == base58_of(ov.hash)
                    && self.tracked_pubkeys == old(self).tracked_pubkeys);
                assert(spec_deserialize_address(addrpre[ikw])->0 == identity@);
                assert(spec_deserialize_address(addrpre[rkw])->0 == rec@);
                assert(first_matching(addrpre, fromv, ikw));
                assert(first_matching(addrpre, msgv.recipient, rkw));
                assert(exists|ik: int, rk: int|
                    #![trigger addrpre[ik], addrpre[rk]]
                    {
                        let iv = spec_deserialize_address(addrpre[ik])->0;
                        let rv = spec_deserialize_address(addrpre[rk])->0;
                        &&& first_matching(addrpre, fromv, ik)
                        &&& first_matching(addrpre, msgv.recipient, rk)
                        &&& iv.private_signing_key is Some
                        &&& ov.signature == sign_of(iv.private_signing_key->0, ov.hash)
                        &&& (forall|sk: Seq<u8>|
                            pubkey_of(sk) == rv.public_encryption_key->0 ==> ecies_decrypt_of(
                                sk,
                                ov.kind->Msg_encrypted,
                            ) == Some(spec_enc_unenc_msg(spec_unenc_msg_of(msgv, iv, rv))))
                    });
            }
            result
        } else {
            // The recipient's keys are unknown: ask the network for them.
            let skeleton = match Address::with_string_repr(msg.recipient.as_str()) {
                Some(a) => a,
                None => {
                    proof {
                        assert(!recipient_keyed(addrpre, msgv.recipient));
                    }
                    return (CommandReply::Failed { error: NodeError::Validation }, actions);
                },
            };
            let ghost skv = skeleton@;
            if recipient.is_none() {
                match self.handler.addresses.store(skeleton.clone()) {
                    Ok(()) => {},
                    Err(e) => {
                        return (CommandReply::Failed { error: e }, actions);
                    },
                }
            }
            let temp_hash = random_alphanumeric(16);
            let row = Message { hash: temp_hash, status: MessageStatus::WaitingForPubkey, ..msg };
            let ghost rowv = row@;
            match self.handler.messages.save_model(row) {
                Ok(()) => {},
                Err(e) => {
                    return (CommandReply::Failed { error: e }, actions);
                },
            }
            let tag_str = base58_encode(skeleton.tag.as_slice());
            let ghost tagv = tag_str@;
            let ghost trackedpre = self.tracked_pubkeys@;
            self.tracked_pubkeys.push(tag_str);
            proof {
                crate::repo_inventory::lemma_strs_view_push(
                    trackedpre,
                    self.tracked_pubkeys@.last(),
                );
            }
            let kind = crate::messages::ObjectKind::Getpubkey {
                tag: crate::messages::clone_bytes(&skeleton.tag),
            };
            let object = match Object::with_signing(&identity, kind, now + MSG_TTL_SECONDS) {
                Some(o) => o,
                None => {
                    proof {
                        assert(spec_deserialize_address(addrpre[ikw])->0 == identity@);
                        assert(send_crypto_cause(addrpre, msgv, fromv));
                    }
                    return (CommandReply::Failed { error: NodeError::Crypto }, actions);
                },
            };
            let ghost ov = object@;
            match self.store_and_enqueue(object, &mut actions) {
                Ok(()) => {},
                Err(e) => {
                    return (CommandReply::Failed { error: e }, actions);
                },
            }
            let result = (CommandReply::Done, actions);
            proof {
                assert(self.handler.messages@.last() == rowv);
                assert(job_emitted(old(self).pow, self.pow, result.1@, ov) && ov.kind is Getpubkey
                    && ov.expires == now + MSG_TTL_SECONDS && rowv.hash.len() == 16
                    && self.tracked_pubkeys@.len() == old(self).tracked_pubkeys@.len() + 1
                    && strs_view(self.tracked_pubkeys@).last() == base58_of(
                    ov.kind->Getpubkey_tag,
                ));
                assert(ov.kind->Getpubkey_tag == spec_tag(skv.ripe));
                assert(base58_decode_of(msgv.recipient) == Some(skv.ripe));
                assert(spec_deserialize_address(addrpre[ikw])->0 == identity@);
                assert(first_matching(addrpre, fromv, ikw));
                assert(exists|ik: int|
                    #![trigger addrpre[ik]]
                    {
                        let iv = spec_deserialize_address(addrpre[ik])->0;
                        &&& first_matching(addrpre, fromv, ik)
                        &&& iv.private_signing_key is Some
                        &&& ov.signature == sign_of(iv.private_signing_key->0, ov.hash)
                    });
            }
            result
        }
    }
}

/// A stored mail whose object the node can build and sign: both address
/// strings are ASCII, the recipient row `rec` holds an encryption key that
/// is a derived public key, the first row matching the sender is an identity
/// with a public signing key and a valid private signing key, and the
/// plaintext is under the encryption size cap.
pub open spec fn mail_buildable(
    addresses: Seq<AddressRecordView>,
    row: MessageView,
    rec: AddressRecordView,
    now: int,
) -> bool {
    &&& vstd::utf8::is_ascii_chars(row.sender)
    &&& vstd::utf8::is_ascii_chars(row.recipient)
    &&& base58_decode_of(rec.address) is Some
    &&& rec.public_encryption_key is Some
    &&& (exists|ek: Seq<u8>|
        secret_key_ok(ek) && #[trigger] pubkey_of(ek) == rec.public_encryption_key->0)
    &&& (exists|ik: int|
        #[trigger] first_matching(addresses, row.sender, ik) && {
            let iv = spec_deserialize_address(addresses[ik])->0;
            &&& iv.public_signing_key is Some
            &&& (iv.private_signing_key matches Some(sk) && secret_key_ok(sk))
            &&& spec_enc_unenc_msg(
                spec_unenc_msg_of(row, iv, spec_deserialize_address(rec)->0),
            ).len() < 0x1_0000_0000
        })
}

/// The Msg object built for a stored mail: one week of life, signed by the
/// sender row's private signing key, its envelope opening under the key
/// matching the recipient row's encryption key to exactly the mail's
/// plaintext.
pub open spec fn object_for_mail(
    o: ObjectView,
    row: MessageView,
    sender_rec: AddressRecordView,
    rec: AddressRecordView,
    now: int,
) -> bool {
    let iv = spec_deserialize_address(sender_rec)->0;
    let rv = spec_deserialize_address(rec)->0;
    &&& o.kind is Msg
    &&& o.expires == now + MSG_TTL_SECONDS
    &&& o.signature == sign_of(iv.private_signing_key->0, o.hash)
    &&& (forall|sk: Seq<u8>|
        pubkey_of(sk) == rv.public_encryption_key->0 ==> ecies_decrypt_of(
            sk,
            o.kind->Msg_encrypted,
        ) == Some(spec_enc_unenc_msg(spec_unenc_msg_of(row, iv, rv))))
}

/// What moving one waiting mail owes: an object for the mail was built, and
/// either the row was re-keyed to that object's hash, set WaitingForPOW and
/// the object queued, or the row is untouched because the object's key
/// collides — with a stored inventory row, or with another mail that held
/// the key before the call.
pub open spec fn mail_advance_owed(
    pre_row: MessageView,
    post_row: MessageView,
    pre_msgs: Seq<MessageView>,
    pre_inv: Seq<crate::repo_inventory::InvRowView>,
    post_inv: Seq<crate::repo_inventory::InvRowView>,
    post_pow: PowQueue,
    actions: Seq<NodeAction>,
    addresses: Seq<AddressRecordView>,
    rec: AddressRecordView,
    now: int,
) -> bool {
    exists|ik: int|
        #[trigger] first_matching(addresses, pre_row.sender, ik) && (exists|o: ObjectView|
            #[trigger] object_for_mail(o, pre_row, addresses[ik], rec, now) && {
                ||| (post_row == MessageView {
                    hash: base58_of(o.hash),
                    status: MessageStatus::WaitingForPOW,
                    ..pre_row
                } && job_listed(post_pow, actions, o))
                ||| ((crate::repo_inventory::inv_has(pre_inv, base58_of(o.hash))
                    || crate::repo_inventory::inv_has(post_inv, base58_of(o.hash))) && post_row
                    == pre_row)
                ||| (msgs_has(pre_msgs, base58_of(o.hash)) && pre_row.hash != base58_of(o.hash)
                    && post_row == pre_row)
            })
}

/// A mail moved along the pubkey path: its fields are kept (its key may be
/// replaced by the object hash), and any status change is to WaitingForPOW.
pub open spec fn pubkey_transition(before: MessageView, after: MessageView) -> bool {
    &&& after.sender == before.sender
    &&& after.recipient == before.recipient
    &&& after.data == before.data
    &&& after.created_at == before.created_at
    &&& after.signature == before.signature
    &&& (after.status == before.status || after.status == MessageStatus::WaitingForPOW)
}

impl NodeWorker {
    /// A pubkey for `tag` arrived. When the tag is tracked, every mail to
    /// the now-keyed recipient that was waiting for the pubkey is rebuilt as
    /// an object, re-keyed to the object's hash, moved to WaitingForPOW, and
    /// queued for proof of work; the tag stops being tracked. Rows never
    /// disappear, untouched rows are untouched, and every waiting mail whose
    /// object the node can build and sign is so advanced, unless its
    /// object's key collides with a stored object or with a mail that held
    /// the key before the call.
    #[verifier::rlimit(100)]
    #[verifier::spinoff_prover]
    #[verifier::loop_isolation(false)]
    pub fn handle_pubkey_notification(&mut self, tag: String, now: i64) -> (r: Vec<NodeAction>)
        requires
            old(self).wf(),
            now + MSG_TTL_SECONDS <= i64::MAX,
        ensures
            final(self).wf(),
            final(self).handler.addresses == old(self).handler.addresses,
            final(self).handler.messages@.len() == old(self).handler.messages@.len(),
            old(self).handler.inventory@.len() <= final(self).handler.inventory@.len(),
            forall|k: int|
                0 <= k < old(self).handler.inventory@.len() ==> #[trigger] final(self).handler.inventory@[k] == old(self).handler.inventory@[k],
            forall|k: int|
                #![trigger final(self).handler.messages@[k]]
                0 <= k < old(self).handler.messages@.len() ==> (final(self).handler.messages@[k]
                    == old(self).handler.messages@[k] || (old(self).handler.messages@[k].status
                    == MessageStatus::WaitingForPubkey && pubkey_transition(
                    old(self).handler.messages@[k],
                    final(self).handler.messages@[k],
                ) && crate::repo_inventory::inv_has(
                    final(self).handler.inventory@,
                    final(self).handler.messages@[k].hash,
                ))),
            forall|k: int|
                0 <= k < final(self).tracked_pubkeys@.len()
                    ==> (#[trigger] final(self).tracked_pubkeys@[k])@ != tag@,
            jobs_retained(old(self).pow, final(self).pow),
            forall|q: int, ak: int|
                #![trigger old(self).handler.messages@[q], old(self).handler.addresses@[ak]]
                (0 <= q < old(self).handler.messages@.len() && (exists|t: int|
                    0 <= t < old(self).tracked_pubkeys@.len() && (#[trigger] old(
                        self,
                    ).tracked_pubkeys@[t])@ == tag@) && first_matching(
                    old(self).handler.addresses@,
                    tag@,
                    ak,
                ) && old(self).handler.messages@[q].status == MessageStatus::WaitingForPubkey
                    && old(self).handler.messages@[q].recipient == (spec_deserialize_address(
                    old(self).handler.addresses@[ak],
                )->0).string_repr && mail_buildable(
                    old(self).handler.addresses@,
                    old(self).handler.messages@[q],
                    old(self).handler.addresses@[ak],
                    now as int,
                )) ==> mail_advance_owed(
                    old(self).handler.messages@[q],
                    final(self).handler.messages@[q],
                    old(self).handler.messages@,
                    old(self).handler.inventory@,
                    final(self).handler.inventory@,
                    final(self).pow,
                    r@,
                    old(self).handler.addresses@,
                    old(self).handler.addresses@[ak],
                    now as int,
                ),
    {
        let ghost tagv = tag@;
        let mut actions: Vec<NodeAction> = Vec::new();
        let mut is_tracked = false;
        let mut t: usize = 0;
        while t < self.tracked_pubkeys.len()
            invariant
                t <= self.tracked_pubkeys@.len(),
                self == old(self),
                !is_tracked ==> (forall|q: int|
                    0 <= q < t ==> (#[trigger] self.tracked_pubkeys@[q])@ != tag@),
            decreases self.tracked_pubkeys@.len() - t,
        {
            if self.tracked_pubkeys[t] == tag {
                is_tracked = true;
            }
            t = t + 1;
        }
        if !is_tracked {
            return actions;
        }
        let addr = match self.handler.addresses.get_by_ripe_or_tag(tag.clone()) {
            Some(a) => a,
            None => {
                // The tracked address is gone (deleted meanwhile): untrack and move on.
                proof {
                    assert forall|ak: int| #[trigger]
                        first_matching(self.handler.addresses@, tagv, ak) implies false by {
                        assert(rec_matches(self.handler.addresses@[ak], tagv));
                    }
                }
                self.untrack(&tag);
                return actions;
            },
        };
        let ghost akw = choose|ak: int|
            #![trigger self.handler.addresses@[ak]]
            {
                &&& 0 <= ak < self.handler.addresses@.len()
                &&& rec_matches(self.handler.addresses@[ak], tagv)
                &&& Some(addr@) == spec_deserialize_address(self.handler.addresses@[ak])
                &&& forall|q: int|
                    0 <= q < ak ==> !rec_matches(#[trigger] self.handler.addresses@[q], tagv)
            };
        proof {
            assert(first_matching(self.handler.addresses@, tagv, akw));
            assert forall|ak: int| #[trigger]
                first_matching(self.handler.addresses@, tagv, ak) implies ak == akw by {
                if ak < akw {
                    assert(!rec_matches(self.handler.addresses@[ak], tagv));
                }
                if akw < ak {
                    assert(!rec_matches(self.handler.addresses@[akw], tagv));
                }
            }
        }
        let msgs = self.handler.messages.get_messages_by_recipient(addr.string_repr.clone());
        proof {
            crate::repo_message::lemma_filter_unique(
                old(self).handler.messages@,
                crate::repo_message::by_recipient(addr@.string_repr),
            );
        }
        let ghost filtered = old(self).handler.messages@.filter(
            crate::repo_message::by_recipient(addr@.string_repr),
        );
        let mut k: usize = 0;
        while k < msgs.len()
            invariant
                k <= msgs@.len(),
                self.wf(),
                self.handler.addresses == old(self).handler.addresses,
                self.handler.messages@.len() == old(self).handler.messages@.len(),
                old(self).handler.inventory@.len() <= self.handler.inventory@.len(),
                forall|p: int|
                    0 <= p < old(self).handler.inventory@.len() ==> #[trigger] self.handler.inventory@[p]
                        == old(self).handler.inventory@[p],
                forall|q: int|
                    #![trigger self.handler.messages@[q]]
                    0 <= q < old(self).handler.messages@.len() ==> (self.handler.messages@[q]
                        == old(self).handler.messages@[q] || (old(
                        self,
                    ).handler.messages@[q].status == MessageStatus::WaitingForPubkey
                        && pubkey_transition(
                        old(self).handler.messages@[q],
                        self.handler.messages@[q],
                    ) && (exists|j2: int|
                        0 <= j2 < k && (#[trigger] msgs@[j2])@ == old(self).handler.messages@[q])
                        && crate::repo_inventory::inv_has(
                        self.handler.inventory@,
                        self.handler.messages@[q].hash,
                    ))),
                jobs_retained(old(self).pow, self.pow),
                forall|j: int, q: int|
                    #![trigger msgs@[j], old(self).handler.messages@[q]]
                    (0 <= j < k && 0 <= q < old(self).handler.messages@.len() && msgs@[j]@ == old(
                        self,
                    ).handler.messages@[q] && old(self).handler.messages@[q].status
                        == MessageStatus::WaitingForPubkey && mail_buildable(
                        old(self).handler.addresses@,
                        old(self).handler.messages@[q],
                        old(self).handler.addresses@[akw],
                        now as int,
                    )) ==> mail_advance_owed(
                        old(self).handler.messages@[q],
                        self.handler.messages@[q],
                        old(self).handler.messages@,
                        old(self).handler.inventory@,
                        self.handler.inventory@,
                        self.pow,
                        actions@,
                        old(self).handler.addresses@,
                        old(self).handler.addresses@[akw],
                        now as int,
                    ),
            decreases msgs@.len() - k,
        {
            let row = &msgs[k];
            let ghost mrow = row@;
            proof {
                assert(crate::repo_message::msgs_view(msgs@)[k as int] == mrow);
                assert(filtered.contains(mrow)) by {
                    assert(filtered[k as int] == mrow);
                }
                crate::repo_message::lemma_filter_members(
                    old(self).handler.messages@,
                    crate::repo_message::by_recipient(addr@.string_repr),
                    mrow,
                );
                // The snapshot rows are pairwise distinct, so the repo rows
                // this entry stands for are still untouched.
                assert forall|q: int|
                    0 <= q < old(self).handler.messages@.len() && old(self).handler.messages@[q]
                        == mrow implies self.handler.messages@[q] == mrow by {
                    if self.handler.messages@[q] != old(self).handler.messages@[q] {
                        let j2 = choose|j2: int|
                            0 <= j2 < k && (#[trigger] msgs@[j2])@ == old(
                                self,
                            ).handler.messages@[q];
                        assert(crate::repo_message::msgs_view(msgs@)[j2] == msgs@[j2]@);
                        assert(filtered[j2] == mrow);
                        assert(filtered[k as int] == mrow);
                        assert(false);
                    }
                }
            }
            if matches_waiting_for_pubkey(row) && row.sender.as_str().is_ascii()
                && row.recipient.as_str().is_ascii() {
                let identity = match self.handler.addresses.get_by_ripe_or_tag(
                    row.sender.clone(),
                ) {
                    Some(a) => a,
                    None => {
                        proof {
                            assert(!mail_buildable(
                                old(self).handler.addresses@,
                                mrow,
                                old(self).handler.addresses@[akw],
                                now as int,
                            )) by {
                                if mail_buildable(
                                    old(self).handler.addresses@,
                                    mrow,
                                    old(self).handler.addresses@[akw],
                                    now as int,
                                ) {
                                    let ik = choose|ik: int| #[trigger]
                                        first_matching(
                                            old(self).handler.addresses@,
                                            mrow.sender,
                                            ik,
                                        ) && {
                                            let iv = spec_deserialize_address(
                                                old(self).handler.addresses@[ik],
                                            )->0;
                                            &&& iv.public_signing_key is Some
                                            &&& (iv.private_signing_key matches Some(sk)
                                                && secret_key_ok(sk))
                                            &&& spec_enc_unenc_msg(
                                                spec_unenc_msg_of(
                                                    mrow,
                                                    iv,
                                                    spec_deserialize_address(
                                                        old(self).handler.addresses@[akw],
                                                    )->0,
                                                ),
                                            ).len() < 0x1_0000_0000
                                        };
                                    assert(rec_matches(
                                        old(self).handler.addresses@[ik],
                                        mrow.sender,
                                    ));
                                    assert(false);
                                }
                            }
                        }
                        k = k + 1;
                        continue ;
                    },
                };
                let ghost ikj = choose|ik: int|
                    #![trigger self.handler.addresses@[ik]]
                    {
                        &&& 0 <= ik < self.handler.addresses@.len()
                        &&& rec_matches(self.handler.addresses@[ik], mrow.sender)
                        &&& Some(identity@) == spec_deserialize_address(
                            self.handler.addresses@[ik],
                        )
                        &&& forall|q: int|
                            0 <= q < ik ==> !rec_matches(
                                #[trigger] self.handler.addresses@[q],
                                mrow.sender,
                            )
                    };
                proof {
                    assert(first_matching(old(self).handler.addresses@, mrow.sender, ikj));
                    assert forall|ik: int| #[trigger]
                        first_matching(old(self).handler.addresses@, mrow.sender, ik) implies ik
                        == ikj by {
                        if ik < ikj {
                            assert(!rec_matches(old(self).handler.addresses@[ik], mrow.sender));
                        }
                        if ikj < ik {
                            assert(!rec_matches(old(self).handler.addresses@[ikj], mrow.sender));
                        }
                    }
                }
                if identity.public_signing_key.is_none()
                    || addr.public_encryption_key.is_none() {
                    proof {
                        assert(!mail_buildable(
                            old(self).handler.addresses@,
                            mrow,
                            old(self).handler.addresses@[akw],
                            now as int,
                        )) by {
                            if mail_buildable(
                                old(self).handler.addresses@,
                                mrow,
                                old(self).handler.addresses@[akw],
                                now as int,
                            ) {
                                if identity.public_signing_key.is_none() {
                                    let ik = choose|ik: int| #[trigger]
                                        first_matching(
                                            old(self).handler.addresses@,
                                            mrow.sender,
                                            ik,
                                        ) && {
                                            let iv = spec_deserialize_address(
                                                old(self).handler.addresses@[ik],
                                            )->0;
                                            &&& iv.public_signing_key is Some
                                            &&& (iv.private_signing_key matches Some(sk)
                                                && secret_key_ok(sk))
                                            &&& spec_enc_unenc_msg(
                                                spec_unenc_msg_of(
                                                    mrow,
                                                    iv,
                                                    spec_deserialize_address(
                                                        old(self).handler.addresses@[akw],
                                                    )->0,
                                                ),
                                            ).len() < 0x1_0000_0000
                                        };
                                    assert(ik == ikj);
                                    assert(false);
                                } else {
                                    assert(old(
                                        self,
                                    ).handler.addresses@[akw].public_encryption_key is Some);
                                    assert(addr@.public_encryption_key is Some);
                                    assert(false);
                                }
                            }
                        }
                    }
                    k = k + 1;
                    continue ;
                }
                let object = match create_object_from_msg(&identity, &addr, row, now) {
                    Some(o) => o,
                    None => {
                        proof {
                            assert(!mail_buildable(
                                old(self).handler.addresses@,
                                mrow,
                                old(self).handler.addresses@[akw],
                                now as int,
                            )) by {
                                if mail_buildable(
                                    old(self).handler.addresses@,
                                    mrow,
                                    old(self).handler.addresses@[akw],
                                    now as int,
                                ) {
                                    let ik = choose|ik: int| #[trigger]
                                        first_matching(
                                            old(self).handler.addresses@,
                                            mrow.sender,
                                            ik,
                                        ) && {
                                            let iv = spec_deserialize_address(
                                                old(self).handler.addresses@[ik],
                                            )->0;
                                            &&& iv.public_signing_key is Some
                                            &&& (iv.private_signing_key matches Some(sk)
                                                && secret_key_ok(sk))
                                            &&& spec_enc_unenc_msg(
                                                spec_unenc_msg_of(
                                                    mrow,
                                                    iv,
                                                    spec_deserialize_address(
                                                        old(self).handler.addresses@[akw],
                                                    )->0,
                                                ),
                                            ).len() < 0x1_0000_0000
                                        };
                                    assert(ik == ikj);
                                    assert(identity@ == spec_deserialize_address(
                                        old(self).handler.addresses@[ikj],
                                    )->0);
                                    assert(addr@ == spec_deserialize_address(
                                        old(self).handler.addresses@[akw],
                                    )->0);
                                    assert(false);
                                }
                            }
                        }
                        k = k + 1;
                        continue ;
                    },
                };
                let ghost ov = object@;
                let ghost premsgs = self.handler.messages@;
                let ghost preinv = self.handler.inventory@;
                let ghost prepow = self.pow;
                let ghost preacts = actions@;
                let r2 = self.advance_waiting_mail(row, object, &mut actions);
                proof {
                    assert(object_for_mail(
                        ov,
                        mrow,
                        old(self).handler.addresses@[ikj],
                        old(self).handler.addresses@[akw],
                        now as int,
                    )) by {
                        assert(identity@ == spec_deserialize_address(
                            old(self).handler.addresses@[ikj],
                        )->0);
                        assert(addr@ == spec_deserialize_address(
                            old(self).handler.addresses@[akw],
                        )->0);
                    }
                    let hv = base58_of(ov.hash);
                    // One repo row stands for this snapshot entry.
                    let q0 = choose|q0: int|
                        0 <= q0 < old(self).handler.messages@.len() && old(
                            self,
                        ).handler.messages@[q0] == mrow;
                    assert(premsgs[q0] == mrow);
                    assert(msgs_has(premsgs, mrow.hash));
                    match r2 {
                        Ok(()) => {
                            assert(self.handler.inventory@ == preinv.push(
                                crate::repo_inventory::InvRowView { hash: hv, object: ov },
                            ));
                            assert(crate::repo_inventory::inv_has(self.handler.inventory@, hv)) by {
                                assert(self.handler.inventory@[preinv.len() as int].hash == hv);
                            }
                        },
                        Err(_) => {
                            assert(self.handler.messages@ == premsgs);
                            assert(self.handler.inventory@ == preinv);
                        },
                    }
                    // Rows other than this one keep their values.
                    assert forall|q: int|
                        0 <= q < old(self).handler.messages@.len() && premsgs[q].hash
                            != mrow.hash implies self.handler.messages@[q] == premsgs[q] by {}
                    // The owed record for this entry.
                    assert forall|q: int|
                        0 <= q < old(self).handler.messages@.len() && mrow == old(
                            self,
                        ).handler.messages@[q] && mail_buildable(
                            old(self).handler.addresses@,
                            old(self).handler.messages@[q],
                            old(self).handler.addresses@[akw],
                            now as int,
                        ) implies mail_advance_owed(
                        old(self).handler.messages@[q],
                        self.handler.messages@[q],
                        old(self).handler.messages@,
                        old(self).handler.inventory@,
                        self.handler.inventory@,
                        self.pow,
                        actions@,
                        old(self).handler.addresses@,
                        old(self).handler.addresses@[akw],
                        now as int,
                    ) by {
                        assert(premsgs[q] == mrow);
                        match r2 {
                            Ok(()) => {
                                assert(self.handler.messages@[q] == MessageView {
                                    hash: hv,
                                    status: MessageStatus::WaitingForPOW,
                                    ..mrow
                                });
                                assert(job_listed(self.pow, actions@, ov)) by {
                                    if self.pow.jobs() == prepow.jobs().push(ov) {
                                        assert(self.pow.jobs()[prepow.jobs().len() as int] == ov);
                                        assert(self.pow.jobs().contains(ov));
                                    }
                                }
                            },
                            Err(_) => {
                                assert(self.handler.messages@[q] == mrow);
                                if !crate::repo_inventory::inv_has(preinv, hv) {
                                    assert(mrow.hash != hv && msgs_has(premsgs, hv));
                                    let qc = choose|qc: int|
                                        0 <= qc < premsgs.len() && (#[trigger] premsgs[qc]).hash
                                            == hv;
                                    if premsgs[qc] == old(self).handler.messages@[qc] {
                                        assert(msgs_has(old(self).handler.messages@, hv));
                                    } else {
                                        assert(crate::repo_inventory::inv_has(preinv, hv));
                                        assert(false);
                                    }
                                }
                            },
                        }
                    }
                    // Owed records of earlier entries survive this step.
                    assert forall|j: int, q: int|
                        #![trigger msgs@[j], old(self).handler.messages@[q]]
                        (0 <= j < k && 0 <= q < old(self).handler.messages@.len() && msgs@[j]@
                            == old(self).handler.messages@[q] && old(
                            self,
                        ).handler.messages@[q].status == MessageStatus::WaitingForPubkey
                            && mail_buildable(
                            old(self).handler.addresses@,
                            old(self).handler.messages@[q],
                            old(self).handler.addresses@[akw],
                            now as int,
                        )) implies mail_advance_owed(
                        old(self).handler.messages@[q],
                        self.handler.messages@[q],
                        old(self).handler.messages@,
                        old(self).handler.inventory@,
                        self.handler.inventory@,
                        self.pow,
                        actions@,
                        old(self).handler.addresses@,
                        old(self).handler.addresses@[akw],
                        now as int,
                    ) by {
                        assert(old(self).handler.messages@[q].hash != mrow.hash) by {
                            assert(crate::repo_message::msgs_view(msgs@)[j] == msgs@[j]@);
                            assert(filtered[j] == old(self).handler.messages@[q]);
                            assert(filtered[k as int] == mrow);
                        }
                        let ik0 = choose|ik0: int| #[trigger]
                            first_matching(
                                old(self).handler.addresses@,
                                old(self).handler.messages@[q].sender,
                                ik0,
                            ) && (exists|o: ObjectView| #[trigger]
                                object_for_mail(
                                    o,
                                    old(self).handler.messages@[q],
                                    old(self).handler.addresses@[ik0],
                                    old(self).handler.addresses@[akw],
                                    now as int,
                                ) && {
                                    ||| (premsgs[q] == MessageView {
                                        hash: base58_of(o.hash),
                                        status: MessageStatus::WaitingForPOW,
                                        ..old(self).handler.messages@[q]
                                    } && job_listed(prepow, preacts, o))
                                    ||| (crate::repo_inventory::inv_has(preinv, base58_of(o.hash))
                                        && premsgs[q] == old(self).handler.messages@[q])
                                    ||| (msgs_has(old(self).handler.messages@, base58_of(o.hash))
                                        && old(self).handler.messages@[q].hash != base58_of(o.hash)
                                        && premsgs[q] == old(self).handler.messages@[q])
                                });
                        let o0 = choose|o: ObjectView| #[trigger]
                            object_for_mail(
                                o,
                                old(self).handler.messages@[q],
                                old(self).handler.addresses@[ik0],
                                old(self).handler.addresses@[akw],
                                now as int,
                            ) && {
                                ||| (premsgs[q] == MessageView {
                                    hash: base58_of(o.hash),
                                    status: MessageStatus::WaitingForPOW,
                                    ..old(self).handler.messages@[q]
                                } && job_listed(prepow, preacts, o))
                                ||| (crate::repo_inventory::inv_has(preinv, base58_of(o.hash))
                                    && premsgs[q] == old(self).handler.messages@[q])
                                ||| (msgs_has(old(self).handler.messages@, base58_of(o.hash))
                                    && old(self).handler.messages@[q].hash != base58_of(o.hash)
                                    && premsgs[q] == old(self).handler.messages@[q])
                            };
                        assert(premsgs[q].hash != mrow.hash) by {
                            let q0 = choose|q0: int|
                                0 <= q0 < old(self).handler.messages@.len() && old(
                                    self,
                                ).handler.messages@[q0] == mrow;
                            assert(premsgs[q0] == mrow);
                            if q != q0 {
                                assert(premsgs[q].hash != premsgs[q0].hash);
                            }
                        }
                        assert(self.handler.messages@[q] == premsgs[q]);
                        if crate::repo_inventory::inv_has(preinv, base58_of(o0.hash)) {
                            let pc = choose|pc: int|
                                0 <= pc < preinv.len() && (#[trigger] preinv[pc]).hash
                                    == base58_of(o0.hash);
                            assert(self.handler.inventory@[pc] == preinv[pc]);
                        }
                        if job_listed(prepow, preacts, o0) {
                            lemma_job_listed_grows(prepow, self.pow, preacts, actions@, o0);
                        }
                    }
                    // The pointwise frame carries to this step.
                    assert forall|q: int|
                        #![trigger self.handler.messages@[q]]
                        0 <= q < old(self).handler.messages@.len() implies (
                        self.handler.messages@[q] == old(self).handler.messages@[q] || (old(
                        self,
                    ).handler.messages@[q].status == MessageStatus::WaitingForPubkey
                        && pubkey_transition(
                        old(self).handler.messages@[q],
                        self.handler.messages@[q],
                    ) && (exists|j2: int|
                        0 <= j2 < k + 1 && (#[trigger] msgs@[j2])@ == old(
                            self,
                        ).handler.messages@[q]) && crate::repo_inventory::inv_has(
                        self.handler.inventory@,
                        self.handler.messages@[q].hash,
                    ))) by {
                        if self.handler.messages@[q] != old(self).handler.messages@[q] {
                            if premsgs[q] != old(self).handler.messages@[q] {
                                assert(premsgs[q].hash != mrow.hash) by {
                                    let q0 = choose|q0: int|
                                        0 <= q0 < old(self).handler.messages@.len() && old(
                                            self,
                                        ).handler.messages@[q0] == mrow;
                                    assert(premsgs[q0] == mrow);
                                    if q != q0 {
                                        assert(premsgs[q].hash != premsgs[q0].hash);
                                    } else {
                                        assert(false);
                                    }
                                };
                                assert(self.handler.messages@[q] == premsgs[q]);
                                let h2 = premsgs[q].hash;
                                let pc = choose|pc: int|
                                    0 <= pc < preinv.len() && (#[trigger] preinv[pc]).hash == h2;
                                assert(self.handler.inventory@[pc] == preinv[pc]);
                            } else {
                                assert(self.handler.messages@[q] != premsgs[q]);
                                assert(r2 is Ok);
                                assert(premsgs[q].hash == mrow.hash);
                                assert(msgs@[k as int]@ == old(self).handler.messages@[q]) by {
                                    let q0 = choose|q0: int|
                                        0 <= q0 < old(self).handler.messages@.len() && old(
                                            self,
                                        ).handler.messages@[q0] == mrow;
                                    assert(premsgs[q0] == mrow);
                                    if q != q0 {
                                        assert(premsgs[q].hash != premsgs[q0].hash);
                                        assert(false);
                                    }
                                };
                                assert(crate::repo_inventory::inv_has(
                                    self.handler.inventory@,
                                    self.handler.messages@[q].hash,
                                ));
                            }
                        }
                    }
                }
            }
            k = k + 1;
        }
        self.untrack(&tag);
        proof {
            assert forall|q: int, ak: int|
                #![trigger old(self).handler.messages@[q], old(self).handler.addresses@[ak]]
                (0 <= q < old(self).handler.messages@.len() && first_matching(
                    old(self).handler.addresses@,
                    tagv,
                    ak,
                ) && old(self).handler.messages@[q].status == MessageStatus::WaitingForPubkey
                    && old(self).handler.messages@[q].recipient == (spec_deserialize_address(
                    old(self).handler.addresses@[ak],
                )->0).string_repr && mail_buildable(
                    old(self).handler.addresses@,
                    old(self).handler.messages@[q],
                    old(self).handler.addresses@[ak],
                    now as int,
                )) implies mail_advance_owed(
                old(self).handler.messages@[q],
                self.handler.messages@[q],
                old(self).handler.messages@,
                old(self).handler.inventory@,
                self.handler.inventory@,
                self.pow,
                actions@,
                old(self).handler.addresses@,
                old(self).handler.addresses@[ak],
                now as int,
            ) by {
                assert(ak == akw);
                assert(addr@ == spec_deserialize_address(old(self).handler.addresses@[akw])->0);
                assert(old(self).handler.messages@[q].recipient == addr@.string_repr);
                assert(crate::repo_message::by_recipient(addr@.string_repr)(
                    old(self).handler.messages@[q],
                ));
                vstd::prelude::Seq::lemma_filter_contains(
                    old(self).handler.messages@,
                    crate::repo_message::by_recipient(addr@.string_repr),
                    q,
                );
                assert(filtered.contains(old(self).handler.messages@[q]));
                let j = choose|j: int|
                    0 <= j < filtered.len() && #[trigger] filtered[j] == old(
                        self,
                    ).handler.messages@[q];
                assert(crate::repo_message::msgs_view(msgs@)[j] == msgs@[j]@);
                assert(msgs@[j]@ == old(self).handler.messages@[q]);
            }
        }
        actions
    }

    /// Drop every occurrence of `tag` from the tracked set.
    fn untrack(&mut self, tag: &String)
        ensures
            final(self).handler == old(self).handler,
            final(self).pow == old(self).pow,
            forall|k: int|
                0 <= k < final(self).tracked_pubkeys@.len()
                    ==> (#[trigger] final(self).tracked_pubkeys@[k])@ != tag@,
    {
        let mut kept: Vec<String> = Vec::new();
        let mut t: usize = 0;
        while t < self.tracked_pubkeys.len()
            invariant
                t <= self.tracked_pubkeys@.len(),
                self.handler == old(self).handler,
                self.pow == old(self).pow,
                forall|k: int| 0 <= k < kept@.len() ==> (#[trigger] kept@[k])@ != tag@,
            decreases self.tracked_pubkeys@.len() - t,
        {
            if !(self.tracked_pubkeys[t] == *tag) {
                kept.push(self.tracked_pubkeys[t].clone());
            }
            t = t + 1;
        }
        self.tracked_pubkeys = kept;
    }

    /// Move one mail that was waiting for a pubkey onto the proof-of-work
    /// path: store and queue its freshly built object, re-key the row to
    /// the object's hash, and set it WaitingForPOW. Succeeds exactly when
    /// the object's key is free in the inventory, the mail is still stored,
    /// and the new key collides with no other mail; a failure leaves the
    /// mails untouched.
    pub fn advance_waiting_mail(
        &mut self,
        row: &Message,
        object: Object,
        actions: &mut Vec<NodeAction>,
    ) -> (r: Result<(), NodeError>)
        requires
            old(self).wf(),
        ensures
            final(self).wf(),
            final(self).handler.addresses == old(self).handler.addresses,
            final(self).tracked_pubkeys == old(self).tracked_pubkeys,
            jobs_retained(old(self).pow, final(self).pow),
            final(actions)@.len() >= old(actions)@.len(),
            forall|k: int| 0 <= k < old(actions)@.len() ==> final(actions)@[k] == old(actions)@[k],
            final(self).handler.messages@.len() == old(self).handler.messages@.len(),
            match r {
                Ok(()) => {
                    &&& (forall|k: int|
                        #![trigger final(self).handler.messages@[k]]
                        0 <= k < old(self).handler.messages@.len()
                            ==> final(self).handler.messages@[k] == (if old(
                            self,
                        ).handler.messages@[k].hash == row@.hash {
                            MessageView {
                                hash: base58_of(object@.hash),
                                status: MessageStatus::WaitingForPOW,
                                ..old(self).handler.messages@[k]
                            }
                        } else {
                            old(self).handler.messages@[k]
                        }))
                    &&& job_emitted(old(self).pow, final(self).pow, final(actions)@, object@)
                    &&& final(self).handler.inventory@ == old(self).handler.inventory@.push(
                        crate::repo_inventory::InvRowView {
                            hash: base58_of(object@.hash),
                            object: object@,
                        },
                    )
                },
                Err(_) => {
                    &&& final(self).handler.messages@ == old(self).handler.messages@
                    &&& final(self).handler.inventory@ == old(self).handler.inventory@
                },
            },
            (!crate::repo_inventory::inv_has(
                old(self).handler.inventory@,
                base58_of(object@.hash),
            ) && msgs_has(old(self).handler.messages@, row@.hash) && (row@.hash == base58_of(
                object@.hash,
            ) || !msgs_has(old(self).handler.messages@, base58_of(object@.hash)))) ==> r is Ok,
    {
        let new_hash = base58_encode(object.hash.as_slice());
        if !self.handler.messages.contains_hash(&row.hash) {
            // The mail disappeared meanwhile: nothing to advance.
            return Err(NodeError::NotFound);
        }
        if !(row.hash == new_hash) && self.handler.messages.contains_hash(&new_hash) {
            // Another mail already holds the object's key.
            return Err(NodeError::Repository);
        }
        match self.store_and_enqueue(object, actions) {
            Ok(()) => {},
            Err(e) => {
                return Err(e);
            },
        }
        let ghost mpre = self.handler.messages@;
        match self.handler.messages.update_hash(row.hash.clone(), new_hash.clone()) {
            Ok(()) => {},
            Err(_) => {
                proof {
                    assert(false);
                }
                return Err(NodeError::Repository);
            },
        }
        let _ = self.handler.messages.update_message_status(
            new_hash,
            MessageStatus::WaitingForPOW,
        );
        Ok(())
    }

    /// Proof of work finished for `obj`: record the nonce on its inventory
    /// row; when it carries a mail, mark that mail Sent; re-offer the full
    /// advertised inventory on the gossip topic; and start the next waiting
    /// search, if any.
    pub fn nonce_calculated(&mut self, obj: Object, now: i64) -> (r: Vec<NodeAction>)
        requires
            old(self).wf(),
        ensures
            final(self).wf(),
            nonce_outcome(*old(self), *final(self), obj@, r@, now as int),
    {
        let mut actions: Vec<NodeAction> = Vec::new();
        let hash_str = base58_encode(obj.hash.as_slice());
        match &obj.kind {
            crate::messages::ObjectKind::Msg { .. } => {
                let _ = self.handler.messages.update_message_status(
                    hash_str.clone(),
                    MessageStatus::Sent,
                );
            },
            _ => {},
        }
        let _ = self.handler.inventory.update_nonce(
            hash_str,
            crate::messages::clone_bytes(&obj.nonce),
        );
        let inventory = self.handler.inventory.get(now);
        proof {
            assert(inventory.deep_view() =~= strs_view(inventory@));
        }
        let msg = NetworkMessage {
            command: MessageCommand::Inv,
            payload: MessagePayload::Inv { inventory },
        };
        let ghost apre = actions@;
        actions.push(NodeAction::Publish { message: msg });
        proof {
            assert(actions@[apre.len() as int] matches NodeAction::Publish { .. });
        }
        let ghost msgv2 = msg@;
        match self.pow.on_pow_finished() {
            Some(next) => {
                let ghost apre2 = actions@;
                actions.push(NodeAction::StartPow { object: next });
                proof {
                    assert(actions@[apre2.len() as int] matches NodeAction::StartPow { .. });
                    assert(actions@[apre.len() as int] matches NodeAction::Publish { .. });
                }
            },
            None => {},
        }
        proof {
            assert(actions@[apre.len() as int] matches NodeAction::Publish { message }
                && message@ == msgv2);
        }
        actions
    }
}

/// A queue whose job list only grew keeps every job.
proof fn lemma_jobs_prefix_retained(pre: PowQueue, post: PowQueue)
    requires
        post.jobs().len() >= pre.jobs().len(),
        forall|i: int| 0 <= i < pre.jobs().len() ==> post.jobs()[i] == pre.jobs()[i],
    ensures
        jobs_retained(pre, post),
{
    assert forall|o: ObjectView| pre.jobs().contains(o) implies #[trigger] post.jobs().contains(
        o,
    ) by {
        let i0 = choose|i0: int| 0 <= i0 < pre.jobs().len() && pre.jobs()[i0] == o;
        assert(post.jobs()[i0] == o);
    }
}

/// A listed proof-of-work job stays listed when the queue only keeps its
/// jobs and the action list only grows.
proof fn lemma_job_listed_grows(
    powpre: PowQueue,
    powpost: PowQueue,
    apre: Seq<NodeAction>,
    apost: Seq<NodeAction>,
    o: ObjectView,
)
    requires
        job_listed(powpre, apre, o),
        jobs_retained(powpre, powpost),
        apost.len() >= apre.len(),
        forall|k: int| 0 <= k < apre.len() ==> apost[k] == apre[k],
    ensures
        job_listed(powpost, apost, o),
{
    if powpre.jobs().contains(o) {
        assert(powpost.jobs().contains(o));
    } else {
        let i0 = choose|i0: int|
            0 <= i0 < apre.len() && ((#[trigger] apre[i0]) matches NodeAction::StartPow { object }
                && object@ == o);
        assert(apost[i0] == apre[i0]);
    }
}

impl NodeWorker {
    /// List the local identities.
    pub fn get_own_identities(&self) -> (r: Vec<Address>)
        requires
            self.wf(),
        ensures
            crate::repo_address::addrs_view(r@) == crate::repo_address::deser_seq(
                self.handler.addresses@.filter(crate::repo_address::rec_is_identity()),
            ),
    {
        self.handler.addresses.get_identities()
    }

    /// Create a fresh identity with random keys, label it, and store it;
    /// the reply carries its display string.
    pub fn generate_identity(&mut self, label: String) -> (r: CommandReply)
        requires
            old(self).wf(),
        ensures
            final(self).wf(),
            final(self).handler.inventory == old(self).handler.inventory,
            final(self).handler.messages == old(self).handler.messages,
            match r {
                CommandReply::StringValue { value } => {
                    &&& final(self).handler.addresses@.len() == old(self).handler.addresses@.len()
                        + 1
                    &&& ({
                        let rec = final(self).handler.addresses@.last();
                        &&& rec.address == value@
                        &&& rec.label == (if label@.len() == 0 {
                            Option::<Seq<char>>::None
                        } else {
                            Some(label@)
                        })
                        &&& rec.private_signing_key is Some
                        &&& rec.private_encryption_key is Some
                        &&& rec.public_signing_key is Some
                        &&& rec.public_encryption_key is Some
                    })
                },
                CommandReply::Failed { error } => final(self).handler.addresses@ == old(
                    self,
                ).handler.addresses@,
                _ => false,
            },
    {
        let mut address = match Address::generate() {
            Some(a) => a,
            None => {
                return CommandReply::Failed { error: NodeError::Crypto };
            },
        };
        address.label = label;
        let value = address.string_repr.clone();
        match self.handler.addresses.store(address) {
            Ok(()) => CommandReply::StringValue { value },
            Err(e) => CommandReply::Failed { error: e },
        }
    }

    /// Rename the identity keyed by `address`.
    pub fn rename_identity(&mut self, address: String, new_label: String) -> (r: CommandReply)
        requires
            old(self).wf(),
        ensures
            final(self).wf(),
            r is Done,
            final(self).handler.addresses@.len() == old(self).handler.addresses@.len(),
            forall|k: int|
                #![trigger final(self).handler.addresses@[k]]
                0 <= k < old(self).handler.addresses@.len() ==> final(self).handler.addresses@[k]
                    == (if old(self).handler.addresses@[k].address == address@ {
                    crate::address::AddressRecordView {
                        label: Some(new_label@),
                        ..old(self).handler.addresses@[k]
                    }
                } else {
                    old(self).handler.addresses@[k]
                }),
    {
        let _ = self.handler.addresses.update_label(address, new_label);
        CommandReply::Done
    }

    /// Delete the identity keyed by `address`.
    pub fn delete_identity(&mut self, address: String) -> (r: CommandReply)
        requires
            old(self).wf(),
        ensures
            final(self).wf(),
            r is Done,
            final(self).handler.addresses@ == old(self).handler.addresses@.filter(
                crate::repo_address::rec_keeps(address@),
            ),
    {
        let _ = self.handler.addresses.delete_address(address);
        CommandReply::Done
    }

    /// List a mailbox: the inbox holds mails to `address`, the sent box the
    /// mails from it.
    pub fn get_messages(&self, address: String, folder: Folder) -> (r: Vec<Message>)
        ensures
            match folder {
                Folder::Inbox => crate::repo_message::msgs_view(r@)
                    == self.handler.messages@.filter(crate::repo_message::by_recipient(address@)),
                Folder::Sent => crate::repo_message::msgs_view(r@)
                    == self.handler.messages@.filter(crate::repo_message::by_sender(address@)),
            },
    {
        match folder {
            Folder::Inbox => self.handler.messages.get_messages_by_recipient(address),
            Folder::Sent => self.handler.messages.get_messages_by_sender(address),
        }
    }

    /// The request sent to every newly discovered peer.
    pub fn request_inventory_message(&self) -> (r: NetworkMessage)
        ensures
            r@.command == MessageCommand::ReqInv,
            r@.payload is Empty,
    {
        NetworkMessage { command: MessageCommand::ReqInv, payload: MessagePayload::Empty }
    }

    /// Startup recovery: re-queue every stored object still awaiting proof
    /// of work, move the mails still waiting for a pubkey whose recipient
    /// is now keyed (tracking the tags of the rest), rebuild and re-queue
    /// the mails stuck in WaitingForPOW, and delete expired inventory rows —
    /// exactly those, keeping every unexpired row. When no mail still waits
    /// for a pubkey, every stuck mail whose object the node can build and
    /// sign is advanced, unless its object's key collides.
    #[verifier::rlimit(100)]
    #[verifier::spinoff_prover]
    #[verifier::loop_isolation(false)]
    pub fn startup(&mut self, now: i64) -> (r: Vec<NodeAction>)
        requires
            old(self).wf(),
            now + MSG_TTL_SECONDS <= i64::MAX,
        ensures
            final(self).wf(),
            final(self).handler.addresses == old(self).handler.addresses,
            final(self).handler.messages@.len() == old(self).handler.messages@.len(),
            forall|k: int|
                #![trigger final(self).handler.inventory@[k]]
                0 <= k < final(self).handler.inventory@.len()
                    ==> final(self).handler.inventory@[k].object.expires > now,
            final(self).handler.inventory@.take(
                old(self).handler.inventory@.filter(
                    crate::repo_inventory::unexpired(now as int),
                ).len() as int,
            ) == old(self).handler.inventory@.filter(
                crate::repo_inventory::unexpired(now as int),
            ),
            forall|k: int|
                0 <= k < old(self).handler.inventory@.len() && (#[trigger] old(
                    self,
                ).handler.inventory@[k]).object.nonce.len() == 0 ==> job_listed(
                    final(self).pow,
                    r@,
                    old(self).handler.inventory@[k].object,
                ),
            forall|q: int, rk: int|
                #![trigger old(self).handler.messages@[q], old(self).handler.addresses@[rk]]
                ((forall|p: int|
                    0 <= p < old(self).handler.messages@.len() ==> (#[trigger] old(
                        self,
                    ).handler.messages@[p]).status != MessageStatus::WaitingForPubkey) && 0 <= q
                    < old(self).handler.messages@.len() && old(self).handler.messages@[q].status
                    == MessageStatus::WaitingForPOW && first_matching(
                    old(self).handler.addresses@,
                    old(self).handler.messages@[q].recipient,
                    rk,
                ) && mail_buildable(
                    old(self).handler.addresses@,
                    old(self).handler.messages@[q],
                    old(self).handler.addresses@[rk],
                    now as int,
                )) ==> mail_advance_owed(
                    old(self).handler.messages@[q],
                    final(self).handler.messages@[q],
                    old(self).handler.messages@,
                    old(self).handler.inventory@,
                    final(self).handler.inventory@,
                    final(self).pow,
                    r@,
                    old(self).handler.addresses@,
                    old(self).handler.addresses@[rk],
                    now as int,
                ),
    {
        let ghost nw = forall|p: int|
            0 <= p < old(self).handler.messages@.len() ==> (#[trigger] old(
                self,
            ).handler.messages@[p]).status != MessageStatus::WaitingForPubkey;
        let mut actions: Vec<NodeAction> = Vec::new();
        // Stored objects that never finished their proof of work.
        let backlog = self.handler.inventory.get_missing_pow_objects();
        let mut t: usize = 0;
        while t < backlog.len()
            invariant
                self.wf(),
                self.handler == old(self).handler,
                crate::repo_inventory::objs_view(backlog@) == crate::repo_inventory::objects_of(
                    old(self).handler.inventory@.filter(crate::repo_inventory::awaiting_pow()),
                ),
                forall|q: int|
                    0 <= q < t ==> job_listed(self.pow, actions@, #[trigger] backlog@[q]@),
            decreases backlog@.len() - t,
        {
            let ghost powpre = self.pow;
            let ghost apre = actions@;
            match self.pow.enqueue_pow(backlog[t].clone()) {
                Some(start) => {
                    actions.push(NodeAction::StartPow { object: start });
                    proof {
                        assert(actions@[apre.len() as int] matches NodeAction::StartPow {
                            object,
                        } && object@ == backlog@[t as int]@);
                    }
                },
                None => {
                    proof {
                        assert(self.pow.jobs().last() == backlog@[t as int]@);
                        assert(self.pow.jobs().contains(backlog@[t as int]@));
                    }
                },
            }
            proof {
                lemma_jobs_prefix_retained(powpre, self.pow);
                assert forall|q: int| 0 <= q < t + 1 implies job_listed(
                    self.pow,
                    actions@,
                    #[trigger] backlog@[q]@,
                ) by {
                    if q < t {
                        lemma_job_listed_grows(powpre, self.pow, apre, actions@, backlog@[q]@);
                    }
                }
            }
            t = t + 1;
        }
        // Mails still waiting on a pubkey: wake the ones whose recipient is
        // now keyed, track the rest.
        let waiting = self.handler.messages.get_messages_by_status(
            MessageStatus::WaitingForPubkey,
        );
        proof {
            if nw && waiting@.len() > 0 {
                let fseq = old(self).handler.messages@.filter(
                    crate::repo_message::by_status(MessageStatus::WaitingForPubkey),
                );
                assert(crate::repo_message::msgs_view(waiting@)[0] == fseq[0]);
                vstd::prelude::Seq::lemma_filter_pred(
                    old(self).handler.messages@,
                    crate::repo_message::by_status(MessageStatus::WaitingForPubkey),
                    0,
                );
                crate::repo_message::lemma_filter_members(
                    old(self).handler.messages@,
                    crate::repo_message::by_status(MessageStatus::WaitingForPubkey),
                    fseq[0],
                );
                let q0 = choose|q0: int|
                    0 <= q0 < old(self).handler.messages@.len() && old(
                        self,
                    ).handler.messages@[q0] == fseq[0];
                assert(false);
            }
        }
        let mut k: usize = 0;
        while k < waiting.len()
            invariant
                self.wf(),
                self.handler.addresses == old(self).handler.addresses,
                self.handler.messages@.len() == old(self).handler.messages@.len(),
                old(self).handler.inventory@.len() <= self.handler.inventory@.len(),
                forall|p: int|
                    0 <= p < old(self).handler.inventory@.len()
                        ==> #[trigger] self.handler.inventory@[p] == old(
                        self,
                    ).handler.inventory@[p],
                nw ==> self.handler.messages@ == old(self).handler.messages@
                    && self.handler.inventory@ == old(self).handler.inventory@,
                forall|q: int|
                    0 <= q < backlog@.len() ==> job_listed(
                        self.pow,
                        actions@,
                        #[trigger] backlog@[q]@,
                    ),
            decreases waiting@.len() - k,
        {
            proof {
                assert(!nw);
            }
            let m = &waiting[k];
            let ghost powpre = self.pow;
            let ghost apre = actions@;
            match self.handler.addresses.get_by_ripe_or_tag(m.recipient.clone()) {
                Some(rec) => {
                    let tag_str = base58_encode(rec.tag.as_slice());
                    if rec.public_encryption_key.is_some() {
                        let mut follow_up = self.handle_pubkey_notification(tag_str, now);
                        actions.append(&mut follow_up);
                    } else {
                        self.tracked_pubkeys.push(tag_str);
                    }
                },
                None => {},
            }
            proof {
                assert forall|q: int| 0 <= q < backlog@.len() implies job_listed(
                    self.pow,
                    actions@,
                    #[trigger] backlog@[q]@,
                ) by {
                    lemma_job_listed_grows(powpre, self.pow, apre, actions@, backlog@[q]@);
                }
            }
            k = k + 1;
        }
        // Mails stuck in WaitingForPOW: rebuild their objects and re-queue.
        let stuck = self.handler.messages.get_messages_by_status(MessageStatus::WaitingForPOW);
        proof {
            crate::repo_message::lemma_filter_unique(
                old(self).handler.messages@,
                crate::repo_message::by_status(MessageStatus::WaitingForPOW),
            );
        }
        let ghost stuckf = old(self).handler.messages@.filter(
            crate::repo_message::by_status(MessageStatus::WaitingForPOW),
        );
        let mut w: usize = 0;
        while w < stuck.len()
            invariant
                w <= stuck@.len(),
                self.wf(),
                self.handler.addresses == old(self).handler.addresses,
                self.handler.messages@.len() == old(self).handler.messages@.len(),
                old(self).handler.inventory@.len() <= self.handler.inventory@.len(),
                forall|p: int|
                    0 <= p < old(self).handler.inventory@.len()
                        ==> #[trigger] self.handler.inventory@[p] == old(
                        self,
                    ).handler.inventory@[p],
                forall|q: int|
                    0 <= q < backlog@.len() ==> job_listed(
                        self.pow,
                        actions@,
                        #[trigger] backlog@[q]@,
                    ),
                nw ==> crate::repo_message::msgs_view(stuck@) == stuckf,
                nw ==> (forall|p: int|
                    old(self).handler.inventory@.len() <= p < self.handler.inventory@.len()
                        ==> (#[trigger] self.handler.inventory@[p]).object.expires == now
                        + MSG_TTL_SECONDS),
                nw ==> (forall|q: int|
                    #![trigger self.handler.messages@[q]]
                    0 <= q < old(self).handler.messages@.len() ==> (self.handler.messages@[q]
                        == old(self).handler.messages@[q] || ((exists|j2: int|
                        0 <= j2 < w && (#[trigger] stuck@[j2])@ == old(self).handler.messages@[q])
                        && self.handler.messages@[q].status == MessageStatus::WaitingForPOW
                        && (exists|p: int|
                        old(self).handler.inventory@.len() <= p < self.handler.inventory@.len()
                            && (#[trigger] self.handler.inventory@[p]).hash
                            == self.handler.messages@[q].hash)))),
                nw ==> (forall|j: int, q: int, rk: int|
                    #![trigger stuck@[j], old(self).handler.messages@[q], old(self).handler.addresses@[rk]]
                    (0 <= j < w && 0 <= q < old(self).handler.messages@.len() && stuck@[j]@ == old(
                        self,
                    ).handler.messages@[q] && old(self).handler.messages@[q].status
                        == MessageStatus::WaitingForPOW && first_matching(
                        old(self).handler.addresses@,
                        old(self).handler.messages@[q].recipient,
                        rk,
                    ) && mail_buildable(
                        old(self).handler.addresses@,
                        old(self).handler.messages@[q],
                        old(self).handler.addresses@[rk],
                        now as int,
                    )) ==> mail_advance_owed(
                        old(self).handler.messages@[q],
                        self.handler.messages@[q],
                        old(self).handler.messages@,
                        old(self).handler.inventory@,
                        self.handler.inventory@,
                        self.pow,
                        actions@,
                        old(self).handler.addresses@,
                        old(self).handler.addresses@[rk],
                        now as int,
                    )),
            decreases stuck@.len() - w,
        {
            let m = &stuck[w];
            let ghost mrow = m@;
            let ghost powpre = self.pow;
            let ghost apre = actions@;
            let ghost premsgs = self.handler.messages@;
            let ghost preinv = self.handler.inventory@;
            proof {
                if nw {
                    assert(crate::repo_message::msgs_view(stuck@)[w as int] == mrow);
                    assert(stuckf.contains(mrow)) by {
                        assert(stuckf[w as int] == mrow);
                    }
                    crate::repo_message::lemma_filter_members(
                        old(self).handler.messages@,
                        crate::repo_message::by_status(MessageStatus::WaitingForPOW),
                        mrow,
                    );
                    assert forall|q: int|
                        0 <= q < old(self).handler.messages@.len() && old(
                            self,
                        ).handler.messages@[q] == mrow implies self.handler.messages@[q]
                        == mrow by {
                        if self.handler.messages@[q] != old(self).handler.messages@[q] {
                            let j2 = choose|j2: int|
                                0 <= j2 < w && (#[trigger] stuck@[j2])@ == old(
                                    self,
                                ).handler.messages@[q];
                            assert(crate::repo_message::msgs_view(stuck@)[j2] == stuck@[j2]@);
                            assert(stuckf[j2] == mrow);
                            assert(stuckf[w as int] == mrow);
                            assert(false);
                        }
                    }
                }
            }
            if !(m.sender.as_str().is_ascii() && m.recipient.as_str().is_ascii()) {
                proof {
                    if nw {
                        assert(!vstd::utf8::is_ascii_chars(mrow.sender)
                            || !vstd::utf8::is_ascii_chars(mrow.recipient));
                    }
                }
                w = w + 1;
                continue ;
            }
            let identity = match self.handler.addresses.get_by_ripe_or_tag(m.sender.clone()) {
                Some(a) => a,
                None => {
                    proof {
                        if nw {
                            assert forall|rk: int|
                                first_matching(
                                    old(self).handler.addresses@,
                                    mrow.recipient,
                                    rk,
                                ) && mail_buildable(
                                    old(self).handler.addresses@,
                                    mrow,
                                    old(self).handler.addresses@[rk],
                                    now as int,
                                ) implies false by {
                                let ik = choose|ik: int| #[trigger]
                                    first_matching(
                                        old(self).handler.addresses@,
                                        mrow.sender,
                                        ik,
                                    ) && {
                                        let iv = spec_deserialize_address(
                                            old(self).handler.addresses@[ik],
                                        )->0;
                                        &&& iv.public_signing_key is Some
                                        &&& (iv.private_signing_key matches Some(sk)
                                            && secret_key_ok(sk))
                                        &&& spec_enc_unenc_msg(
                                            spec_unenc_msg_of(
                                                mrow,
                                                iv,
                                                spec_deserialize_address(
                                                    old(self).handler.addresses@[rk],
                                                )->0,
                                            ),
                                        ).len() < 0x1_0000_0000
                                    };
                                assert(rec_matches(
                                    old(self).handler.addresses@[ik],
                                    mrow.sender,
                                ));
                            }
                        }
                    }
                    w = w + 1;
                    continue ;
                },
            };
            let recipient = match self.handler.addresses.get_by_ripe_or_tag(
                m.recipient.clone(),
            ) {
                Some(a) => a,
                None => {
                    proof {
                        if nw {
                            assert forall|rk: int|
                                first_matching(
                                    old(self).handler.addresses@,
                                    mrow.recipient,
                                    rk,
                                ) && mail_buildable(
                                    old(self).handler.addresses@,
                                    mrow,
                                    old(self).handler.addresses@[rk],
                                    now as int,
                                ) implies false by {
                                assert(rec_matches(
                                    old(self).handler.addresses@[rk],
                                    mrow.recipient,
                                ));
                            }
                        }
                    }
                    w = w + 1;
                    continue ;
                },
            };
            let ghost ikj = choose|ik: int|
                #![trigger self.handler.addresses@[ik]]
                {
                    &&& 0 <= ik < self.handler.addresses@.len()
                    &&& rec_matches(self.handler.addresses@[ik], mrow.sender)
                    &&& Some(identity@) == spec_deserialize_address(self.handler.addresses@[ik])
                    &&& forall|q: int|
                        0 <= q < ik ==> !rec_matches(
                            #[trigger] self.handler.addresses@[q],
                            mrow.sender,
                        )
                };
            let ghost rkj = choose|rk: int|
                #![trigger self.handler.addresses@[rk]]
                {
                    &&& 0 <= rk < self.handler.addresses@.len()
                    &&& rec_matches(self.handler.addresses@[rk], mrow.recipient)
                    &&& Some(recipient@) == spec_deserialize_address(
                        self.handler.addresses@[rk],
                    )
                    &&& forall|q: int|
                        0 <= q < rk ==> !rec_matches(
                            #[trigger] self.handler.addresses@[q],
                            mrow.recipient,
                        )
                };
            proof {
                assert(first_matching(old(self).handler.addresses@, mrow.sender, ikj));
                assert(first_matching(old(self).handler.addresses@, mrow.recipient, rkj));
                assert forall|ik: int| #[trigger]
                    first_matching(old(self).handler.addresses@, mrow.sender, ik) implies ik
                    == ikj by {
                    if ik < ikj {
                        assert(!rec_matches(old(self).handler.addresses@[ik], mrow.sender));
                    }
                    if ikj < ik {
                        assert(!rec_matches(old(self).handler.addresses@[ikj], mrow.sender));
                    }
                }
                assert forall|rk: int| #[trigger]
                    first_matching(old(self).handler.addresses@, mrow.recipient, rk) implies rk
                    == rkj by {
                    if rk < rkj {
                        assert(!rec_matches(old(self).handler.addresses@[rk], mrow.recipient));
                    }
                    if rkj < rk {
                        assert(!rec_matches(old(self).handler.addresses@[rkj], mrow.recipient));
                    }
                }
            }
            if !(identity.public_signing_key.is_some()
                && recipient.public_encryption_key.is_some()) {
                proof {
                    if nw && mail_buildable(
                        old(self).handler.addresses@,
                        mrow,
                        old(self).handler.addresses@[rkj],
                        now as int,
                    ) {
                        if identity.public_signing_key.is_none() {
                            let ik = choose|ik: int| #[trigger]
                                first_matching(
                                    old(self).handler.addresses@,
                                    mrow.sender,
                                    ik,
                                ) && {
                                    let iv = spec_deserialize_address(
                                        old(self).handler.addresses@[ik],
                                    )->0;
                                    &&& iv.public_signing_key is Some
                                    &&& (iv.private_signing_key matches Some(sk)
                                        && secret_key_ok(sk))
                                    &&& spec_enc_unenc_msg(
                                        spec_unenc_msg_of(
                                            mrow,
                                            iv,
                                            spec_deserialize_address(
                                                old(self).handler.addresses@[rkj],
                                            )->0,
                                        ),
                                    ).len() < 0x1_0000_0000
                                };
                            assert(ik == ikj);
                            assert(false);
                        } else {
                            assert(old(
                                self,
                            ).handler.addresses@[rkj].public_encryption_key is Some);
                            assert(recipient@.public_encryption_key is Some);
                            assert(false);
                        }
                    }
                }
                w = w + 1;
                continue ;
            }
            match create_object_from_msg(&identity, &recipient, m, now) {
                Some(object) => {
                    let ghost ov = object@;
                    let ghost premsgs2 = self.handler.messages@;
                    let ghost preinv2 = self.handler.inventory@;
                    let r2 = self.advance_waiting_mail(m, object, &mut actions);
                    proof {
                        if nw {
                            assert(identity@ == spec_deserialize_address(
                                old(self).handler.addresses@[ikj],
                            )->0);
                            assert(recipient@ == spec_deserialize_address(
                                old(self).handler.addresses@[rkj],
                            )->0);
                            assert(object_for_mail(
                                ov,
                                mrow,
                                old(self).handler.addresses@[ikj],
                                old(self).handler.addresses@[rkj],
                                now as int,
                            ));
                            let hv = base58_of(ov.hash);
                            let q0 = choose|q0: int|
                                0 <= q0 < old(self).handler.messages@.len() && old(
                                    self,
                                ).handler.messages@[q0] == mrow;
                            assert(premsgs2[q0] == mrow);
                            assert(msgs_has(premsgs2, mrow.hash));
                            match r2 {
                                Ok(()) => {
                                    assert(self.handler.inventory@ == preinv2.push(
                                        crate::repo_inventory::InvRowView {
                                            hash: hv,
                                            object: ov,
                                        },
                                    ));
                                    assert(self.handler.inventory@[preinv2.len() as int].hash
                                        == hv);
                                },
                                Err(_) => {
                                    assert(self.handler.messages@ == premsgs2);
                                    assert(self.handler.inventory@ == preinv2);
                                },
                            }
                            assert forall|q: int|
                                0 <= q < old(self).handler.messages@.len() && premsgs2[q].hash
                                    != mrow.hash implies self.handler.messages@[q]
                                == premsgs2[q] by {}
                            assert forall|q: int|
                                0 <= q < old(self).handler.messages@.len() && mrow == old(
                                    self,
                                ).handler.messages@[q] && mail_buildable(
                                    old(self).handler.addresses@,
                                    old(self).handler.messages@[q],
                                    old(self).handler.addresses@[rkj],
                                    now as int,
                                ) implies mail_advance_owed(
                                old(self).handler.messages@[q],
                                self.handler.messages@[q],
                                old(self).handler.messages@,
                                old(self).handler.inventory@,
                                self.handler.inventory@,
                                self.pow,
                                actions@,
                                old(self).handler.addresses@,
                                old(self).handler.addresses@[rkj],
                                now as int,
                            ) by {
                                assert(premsgs2[q] == mrow);
                                match r2 {
                                    Ok(()) => {
                                        assert(self.handler.messages@[q] == MessageView {
                                            hash: hv,
                                            status: MessageStatus::WaitingForPOW,
                                            ..mrow
                                        });
                                        assert(job_listed(self.pow, actions@, ov)) by {
                                            if self.pow.jobs() == powpre.jobs().push(ov) {
                                                assert(self.pow.jobs()[powpre.jobs().len() as int]
                                                    == ov);
                                                assert(self.pow.jobs().contains(ov));
                                            }
                                        }
                                    },
                                    Err(_) => {
                                        assert(self.handler.messages@[q] == mrow);
                                        if !crate::repo_inventory::inv_has(preinv2, hv) {
                                            assert(mrow.hash != hv && msgs_has(premsgs2, hv));
                                            let qc = choose|qc: int|
                                                0 <= qc < premsgs2.len() && (
                                                #[trigger] premsgs2[qc]).hash == hv;
                                            if premsgs2[qc] == old(self).handler.messages@[qc] {
                                                assert(msgs_has(old(self).handler.messages@, hv));
                                            } else {
                                                let pb = choose|pb: int|
                                                    old(self).handler.inventory@.len() <= pb
                                                        < preinv2.len() && (
                                                    #[trigger] preinv2[pb]).hash
                                                        == premsgs2[qc].hash;
                                                assert(crate::repo_inventory::inv_has(
                                                    preinv2,
                                                    hv,
                                                ));
                                                assert(false);
                                            }
                                        } else {
                                            let pc = choose|pc: int|
                                                0 <= pc < preinv2.len() && (
                                                #[trigger] preinv2[pc]).hash == hv;
                                            if pc < old(self).handler.inventory@.len() {
                                                assert(preinv2[pc] == old(
                                                    self,
                                                ).handler.inventory@[pc]);
                                                assert(crate::repo_inventory::inv_has(
                                                    old(self).handler.inventory@,
                                                    hv,
                                                ));
                                            } else {
                                                assert(self.handler.inventory@[pc]
                                                    == preinv2[pc]);
                                                assert(crate::repo_inventory::inv_has(
                                                    self.handler.inventory@,
                                                    hv,
                                                ));
                                            }
                                        }
                                    },
                                }
                            }
                            assert forall|j: int, q: int, rk: int|
                                #![trigger stuck@[j], old(self).handler.messages@[q], old(self).handler.addresses@[rk]]
                                (0 <= j < w && 0 <= q < old(self).handler.messages@.len()
                                    && stuck@[j]@ == old(self).handler.messages@[q] && old(
                                    self,
                                ).handler.messages@[q].status == MessageStatus::WaitingForPOW
                                    && first_matching(
                                    old(self).handler.addresses@,
                                    old(self).handler.messages@[q].recipient,
                                    rk,
                                ) && mail_buildable(
                                    old(self).handler.addresses@,
                                    old(self).handler.messages@[q],
                                    old(self).handler.addresses@[rk],
                                    now as int,
                                )) implies mail_advance_owed(
                                old(self).handler.messages@[q],
                                self.handler.messages@[q],
                                old(self).handler.messages@,
                                old(self).handler.inventory@,
                                self.handler.inventory@,
                                self.pow,
                                actions@,
                                old(self).handler.addresses@,
                                old(self).handler.addresses@[rk],
                                now as int,
                            ) by {
                                assert(old(self).handler.messages@[q].hash != mrow.hash) by {
                                    assert(crate::repo_message::msgs_view(stuck@)[j]
                                        == stuck@[j]@);
                                    assert(stuckf[j] == old(self).handler.messages@[q]);
                                    assert(stuckf[w as int] == mrow);
                                }
                                let ik0 = choose|ik0: int| #[trigger]
                                    first_matching(
                                        old(self).handler.addresses@,
                                        old(self).handler.messages@[q].sender,
                                        ik0,
                                    ) && (exists|o: ObjectView| #[trigger]
                                        object_for_mail(
                                            o,
                                            old(self).handler.messages@[q],
                                            old(self).handler.addresses@[ik0],
                                            old(self).handler.addresses@[rk],
                                            now as int,
                                        ) && {
                                            ||| (premsgs2[q] == MessageView {
                                                hash: base58_of(o.hash),
                                                status: MessageStatus::WaitingForPOW,
                                                ..old(self).handler.messages@[q]
                                            } && job_listed(powpre, apre, o))
                                            ||| ((crate::repo_inventory::inv_has(
                                                old(self).handler.inventory@,
                                                base58_of(o.hash),
                                            ) || crate::repo_inventory::inv_has(
                                                preinv2,
                                                base58_of(o.hash),
                                            )) && premsgs2[q] == old(
                                                self,
                                            ).handler.messages@[q])
                                            ||| (msgs_has(
                                                old(self).handler.messages@,
                                                base58_of(o.hash),
                                            ) && old(self).handler.messages@[q].hash
                                                != base58_of(o.hash) && premsgs2[q] == old(
                                                self,
                                            ).handler.messages@[q])
                                        });
                                let o0 = choose|o: ObjectView| #[trigger]
                                    object_for_mail(
                                        o,
                                        old(self).handler.messages@[q],
                                        old(self).handler.addresses@[ik0],
                                        old(self).handler.addresses@[rk],
                                        now as int,
                                    ) && {
                                        ||| (premsgs2[q] == MessageView {
                                            hash: base58_of(o.hash),
                                            status: MessageStatus::WaitingForPOW,
                                            ..old(self).handler.messages@[q]
                                        } && job_listed(powpre, apre, o))
                                        ||| ((crate::repo_inventory::inv_has(
                                            old(self).handler.inventory@,
                                            base58_of(o.hash),
                                        ) || crate::repo_inventory::inv_has(
                                            preinv2,
                                            base58_of(o.hash),
                                        )) && premsgs2[q] == old(self).handler.messages@[q])
                                        ||| (msgs_has(
                                            old(self).handler.messages@,
                                            base58_of(o.hash),
                                        ) && old(self).handler.messages@[q].hash != base58_of(
                                            o.hash,
                                        ) && premsgs2[q] == old(self).handler.messages@[q])
                                    };
                                assert(premsgs2[q].hash != mrow.hash) by {
                                    if q != q0 {
                                        assert(premsgs2[q].hash != premsgs2[q0].hash);
                                    }
                                }
                                assert(self.handler.messages@[q] == premsgs2[q]);
                                if crate::repo_inventory::inv_has(preinv2, base58_of(o0.hash)) {
                                    let pc = choose|pc: int|
                                        0 <= pc < preinv2.len() && (#[trigger] preinv2[pc]).hash
                                            == base58_of(o0.hash);
                                    assert(self.handler.inventory@[pc] == preinv2[pc]);
                                }
                                if job_listed(powpre, apre, o0) {
                                    lemma_job_listed_grows(powpre, self.pow, apre, actions@, o0);
                                }
                            }
                            assert forall|q: int|
                                #![trigger self.handler.messages@[q]]
                                0 <= q < old(self).handler.messages@.len() implies (
                            self.handler.messages@[q] == old(self).handler.messages@[q] || ((
                            exists|j2: int|
                                0 <= j2 < w + 1 && (#[trigger] stuck@[j2])@ == old(
                                    self,
                                ).handler.messages@[q]) && self.handler.messages@[q].status
                                == MessageStatus::WaitingForPOW && (exists|p: int|
                                old(self).handler.inventory@.len() <= p
                                    < self.handler.inventory@.len() && (
                                #[trigger] self.handler.inventory@[p]).hash
                                    == self.handler.messages@[q].hash))) by {
                                if self.handler.messages@[q] != old(self).handler.messages@[q] {
                                    if premsgs2[q] != old(self).handler.messages@[q] {
                                        assert(premsgs2[q].hash != mrow.hash) by {
                                            if q != q0 {
                                                assert(premsgs2[q].hash != premsgs2[q0].hash);
                                            } else {
                                                assert(false);
                                            }
                                        };
                                        assert(self.handler.messages@[q] == premsgs2[q]);
                                        let pb = choose|pb: int|
                                            old(self).handler.inventory@.len() <= pb
                                                < preinv2.len() && (#[trigger] preinv2[pb]).hash
                                                == premsgs2[q].hash;
                                        assert(self.handler.inventory@[pb] == preinv2[pb]);
                                    } else {
                                        assert(self.handler.messages@[q] != premsgs2[q]);
                                        assert(r2 is Ok);
                                        assert(premsgs2[q].hash == mrow.hash);
                                        assert(q == q0) by {
                                            if q != q0 {
                                                assert(premsgs2[q].hash != premsgs2[q0].hash);
                                            }
                                        };
                                        assert(stuck@[w as int]@ == old(
                                            self,
                                        ).handler.messages@[q]);
                                        assert(self.handler.inventory@[preinv2.len() as int].hash
                                            == base58_of(ov.hash));
                                        assert(self.handler.messages@[q].hash == base58_of(
                                            ov.hash,
                                        ));
                                    }
                                }
                            }
                        }
                    }
                },
                None => {
                    proof {
                        if nw && mail_buildable(
                            old(self).handler.addresses@,
                            mrow,
                            old(self).handler.addresses@[rkj],
                            now as int,
                        ) {
                            let ik = choose|ik: int| #[trigger]
                                first_matching(
                                    old(self).handler.addresses@,
                                    mrow.sender,
                                    ik,
                                ) && {
                                    let iv = spec_deserialize_address(
                                        old(self).handler.addresses@[ik],
                                    )->0;
                                    &&& iv.public_signing_key is Some
                                    &&& (iv.private_signing_key matches Some(sk)
                                        && secret_key_ok(sk))
                                    &&& spec_enc_unenc_msg(
                                        spec_unenc_msg_of(
                                            mrow,
                                            iv,
                                            spec_deserialize_address(
                                                old(self).handler.addresses@[rkj],
                                            )->0,
                                        ),
                                    ).len() < 0x1_0000_0000
                                };
                            assert(ik == ikj);
                            assert(identity@ == spec_deserialize_address(
                                old(self).handler.addresses@[ikj],
                            )->0);
                            assert(recipient@ == spec_deserialize_address(
                                old(self).handler.addresses@[rkj],
                            )->0);
                            assert(false);
                        }
                    }
                },
            }
            proof {
                assert forall|q: int| 0 <= q < backlog@.len() implies job_listed(
                    self.pow,
                    actions@,
                    #[trigger] backlog@[q]@,
                ) by {
                    lemma_job_listed_grows(powpre, self.pow, apre, actions@, backlog@[q]@);
                }
            }
            w = w + 1;
        }
        // Expired inventory rows are garbage-collected.
        let ghost midinv = self.handler.inventory@;
        let ghost midmsgs = self.handler.messages@;
        let ghost midpow = self.pow;
        let _ = self.handler.inventory.cleanup(now);
        proof {
            assert forall|k2: int|
                0 <= k2 < old(self).handler.inventory@.len() && (#[trigger] old(
                    self,
                ).handler.inventory@[k2]).object.nonce.len() == 0 implies job_listed(
                self.pow,
                actions@,
                old(self).handler.inventory@[k2].object,
            ) by {
                vstd::prelude::Seq::lemma_filter_contains(
                    old(self).handler.inventory@,
                    crate::repo_inventory::awaiting_pow(),
                    k2,
                );
                let frows = old(self).handler.inventory@.filter(
                    crate::repo_inventory::awaiting_pow(),
                );
                let q = choose|q: int|
                    0 <= q < frows.len() && #[trigger] frows[q] == old(
                        self,
                    ).handler.inventory@[k2];
                assert(crate::repo_inventory::objs_view(backlog@).len() == backlog@.len());
                assert(crate::repo_inventory::objects_of(frows).len() == frows.len());
                assert(crate::repo_inventory::objs_view(backlog@)[q] == backlog@[q]@);
                assert(crate::repo_inventory::objects_of(frows)[q] == frows[q].object);
            }
            let pre = old(self).handler.inventory@;
            let unex = crate::repo_inventory::unexpired(now as int);
            let suffix = midinv.subrange(pre.len() as int, midinv.len() as int);
            assert(midinv =~= pre + suffix);
            vstd::prelude::Seq::filter_distributes_over_add(pre, suffix, unex);
            assert(self.handler.inventory@ == pre.filter(unex) + suffix.filter(unex));
            assert(self.handler.inventory@.take(pre.filter(unex).len() as int) =~= pre.filter(
                unex,
            ));
            if nw {
                assert forall|q: int, rk: int|
                    #![trigger old(self).handler.messages@[q], old(self).handler.addresses@[rk]]
                    (0 <= q < old(self).handler.messages@.len() && old(
                        self,
                    ).handler.messages@[q].status == MessageStatus::WaitingForPOW
                        && first_matching(
                        old(self).handler.addresses@,
                        old(self).handler.messages@[q].recipient,
                        rk,
                    ) && mail_buildable(
                        old(self).handler.addresses@,
                        old(self).handler.messages@[q],
                        old(self).handler.addresses@[rk],
                        now as int,
                    )) implies mail_advance_owed(
                    old(self).handler.messages@[q],
                    self.handler.messages@[q],
                    old(self).handler.messages@,
                    old(self).handler.inventory@,
                    self.handler.inventory@,
                    self.pow,
                    actions@,
                    old(self).handler.addresses@,
                    old(self).handler.addresses@[rk],
                    now as int,
                ) by {
                    assert(crate::repo_message::by_status(MessageStatus::WaitingForPOW)(
                        old(self).handler.messages@[q],
                    ));
                    vstd::prelude::Seq::lemma_filter_contains(
                        old(self).handler.messages@,
                        crate::repo_message::by_status(MessageStatus::WaitingForPOW),
                        q,
                    );
                    let j = choose|j: int|
                        0 <= j < stuckf.len() && #[trigger] stuckf[j] == old(
                            self,
                        ).handler.messages@[q];
                    assert(crate::repo_message::msgs_view(stuck@)[j] == stuck@[j]@);
                    assert(stuck@[j]@ == old(self).handler.messages@[q]);
                    // The record held before the cleanup; re-establish its
                    // collision disjunct over the cleaned inventory.
                    let ik = choose|ik: int|
                        #[trigger] first_matching(
                            old(self).handler.addresses@,
                            old(self).handler.messages@[q].sender,
                            ik,
                        ) && (exists|o: ObjectView|
                            #[trigger] object_for_mail(
                                o,
                                old(self).handler.messages@[q],
                                old(self).handler.addresses@[ik],
                                old(self).handler.addresses@[rk],
                                now as int,
                            ) && {
                                ||| (midmsgs[q] == MessageView {
                                    hash: base58_of(o.hash),
                                    status: MessageStatus::WaitingForPOW,
                                    ..old(self).handler.messages@[q]
                                } && job_listed(midpow, actions@, o))
                                ||| ((crate::repo_inventory::inv_has(
                                    old(self).handler.inventory@,
                                    base58_of(o.hash),
                                ) || crate::repo_inventory::inv_has(midinv, base58_of(o.hash)))
                                    && midmsgs[q] == old(self).handler.messages@[q])
                                ||| (msgs_has(
                                    old(self).handler.messages@,
                                    base58_of(o.hash),
                                ) && old(self).handler.messages@[q].hash != base58_of(o.hash)
                                    && midmsgs[q] == old(self).handler.messages@[q])
                            });
                    let o = choose|o: ObjectView|
                        #[trigger] object_for_mail(
                            o,
                            old(self).handler.messages@[q],
                            old(self).handler.addresses@[ik],
                            old(self).handler.addresses@[rk],
                            now as int,
                        ) && {
                            ||| (midmsgs[q] == MessageView {
                                hash: base58_of(o.hash),
                                status: MessageStatus::WaitingForPOW,
                                ..old(self).handler.messages@[q]
                            } && job_listed(midpow, actions@, o))
                            ||| ((crate::repo_inventory::inv_has(
                                old(self).handler.inventory@,
                                base58_of(o.hash),
                            ) || crate::repo_inventory::inv_has(midinv, base58_of(o.hash)))
                                && midmsgs[q] == old(self).handler.messages@[q])
                            ||| (msgs_has(old(self).handler.messages@, base58_of(o.hash))
                                && old(self).handler.messages@[q].hash != base58_of(o.hash)
                                && midmsgs[q] == old(self).handler.messages@[q])
                        };
                    if crate::repo_inventory::inv_has(midinv, base58_of(o.hash))
                        && !crate::repo_inventory::inv_has(
                        old(self).handler.inventory@,
                        base58_of(o.hash),
                    ) {
                        let pc = choose|pc: int|
                            0 <= pc < midinv.len() && (#[trigger] midinv[pc]).hash == base58_of(
                                o.hash,
                            );
                        assert(pc >= pre.len()) by {
                            if pc < pre.len() {
                                assert(midinv[pc] == pre[pc]);
                            }
                        }
                        assert(midinv[pc].object.expires == now + MSG_TTL_SECONDS);
                        assert(unex(midinv[pc]));
                        vstd::prelude::Seq::lemma_filter_contains(midinv, unex, pc);
                        assert(self.handler.inventory@.contains(midinv[pc]));
                        let pf = choose|pf: int|
                            0 <= pf < self.handler.inventory@.len()
                                && #[trigger] self.handler.inventory@[pf] == midinv[pc];
                        assert(crate::repo_inventory::inv_has(
                            self.handler.inventory@,
                            base58_of(o.hash),
                        ));
                    }
                }
            }
        }
        actions
    }

    /// Execute one local command, returning its reply and the actions the
    /// transport must perform; each command behaves as its own function
    /// promises.
    pub fn handle_command(&mut self, command: WorkerCommand, now: i64) -> (r: (
        CommandReply,
        Vec<NodeAction>,
    ))
        requires
            old(self).wf(),
            now + MSG_TTL_SECONDS <= i64::MAX,
        ensures
            final(self).wf(),
            match command {
                WorkerCommand::NonceCalculated { obj } => r.0 is Done && nonce_outcome(
                    *old(self),
                    *final(self),
                    obj@,
                    r.1@,
                    now as int,
                ),
                WorkerCommand::GetOwnIdentities => {
                    &&& *final(self) == *old(self)
                    &&& r.1@.len() == 0
                    &&& (r.0 matches CommandReply::Identities { identities }
                        && crate::repo_address::addrs_view(identities@)
                        == crate::repo_address::deser_seq(
                        old(self).handler.addresses@.filter(
                            crate::repo_address::rec_is_identity(),
                        ),
                    ))
                },
                WorkerCommand::GenerateIdentity { label } => {
                    &&& r.1@.len() == 0
                    &&& final(self).handler.inventory == old(self).handler.inventory
                    &&& final(self).handler.messages == old(self).handler.messages
                    &&& (match r.0 {
                        CommandReply::StringValue { value } => {
                            &&& final(self).handler.addresses@.len() == old(
                                self,
                            ).handler.addresses@.len() + 1
                            &&& ({
                                let rec = final(self).handler.addresses@.last();
                                &&& rec.address == value@
                                &&& rec.label == (if label@.len() == 0 {
                                    Option::<Seq<char>>::None
                                } else {
                                    Some(label@)
                                })
                                &&& rec.private_signing_key is Some
                                &&& rec.private_encryption_key is Some
                                &&& rec.public_signing_key is Some
                                &&& rec.public_encryption_key is Some
                            })
                        },
                        CommandReply::Failed { error } => final(self).handler.addresses@ == old(
                            self,
                        ).handler.addresses@,
                        _ => false,
                    })
                },
                WorkerCommand::RenameIdentity { new_label, address } => {
                    &&& r.0 is Done
                    &&& r.1@.len() == 0
                    &&& final(self).handler.addresses@.len() == old(
                        self,
                    ).handler.addresses@.len()
                    &&& (forall|k: int|
                        #![trigger final(self).handler.addresses@[k]]
                        0 <= k < old(self).handler.addresses@.len()
                            ==> final(self).handler.addresses@[k] == (if old(
                            self,
                        ).handler.addresses@[k].address == address@ {
                            crate::address::AddressRecordView {
                                label: Some(new_label@),
                                ..old(self).handler.addresses@[k]
                            }
                        } else {
                            old(self).handler.addresses@[k]
                        }))
                },
                WorkerCommand::DeleteIdentity { address } => {
                    &&& r.0 is Done
                    &&& r.1@.len() == 0
                    &&& final(self).handler.addresses@ == old(self).handler.addresses@.filter(
                        crate::repo_address::rec_keeps(address@),
                    )
                },
                WorkerCommand::GetMessages { address, folder } => {
                    &&& *final(self) == *old(self)
                    &&& r.1@.len() == 0
                    &&& (r.0 matches CommandReply::Messages { messages } && (match folder {
                        Folder::Inbox => crate::repo_message::msgs_view(messages@) == old(
                            self,
                        ).handler.messages@.filter(crate::repo_message::by_recipient(address@)),
                        Folder::Sent => crate::repo_message::msgs_view(messages@) == old(
                            self,
                        ).handler.messages@.filter(crate::repo_message::by_sender(address@)),
                    }))
                },
                WorkerCommand::SendMessage { msg, from } => {
                    &&& (!(vstd::utf8::is_ascii_chars(msg@.sender) && vstd::utf8::is_ascii_chars(
                        msg@.recipient,
                    )) ==> r.0 == (CommandReply::Failed { error: NodeError::Validation })
                        && *final(self) == *old(self))
                    &&& ((vstd::utf8::is_ascii_chars(msg@.sender) && vstd::utf8::is_ascii_chars(
                        msg@.recipient,
                    )) ==> send_reply_owed(
                        *old(self),
                        *final(self),
                        msg@,
                        from@,
                        r.0,
                        r.1@,
                        now as int,
                    ))
                },
                WorkerCommand::BroadcastMsgByPubSub { msg } => {
                    &&& *final(self) == *old(self)
                    &&& r.0 is Done
                    &&& r.1@.len() == 1
                    &&& (r.1@[0] matches NodeAction::Publish { message } && message@ == msg@)
                },
            },
    {
        match command {
            WorkerCommand::NonceCalculated { obj } => {
                let actions = self.nonce_calculated(obj, now);
                (CommandReply::Done, actions)
            },
            WorkerCommand::GetOwnIdentities => {
                let identities = self.get_own_identities();
                (CommandReply::Identities { identities }, Vec::new())
            },
            WorkerCommand::GenerateIdentity { label } => {
                (self.generate_identity(label), Vec::new())
            },
            WorkerCommand::RenameIdentity { new_label, address } => {
                (self.rename_identity(address, new_label), Vec::new())
            },
            WorkerCommand::DeleteIdentity { address } => {
                (self.delete_identity(address), Vec::new())
            },
            WorkerCommand::GetMessages { address, folder } => {
                let messages = self.get_messages(address, folder);
                (CommandReply::Messages { messages }, Vec::new())
            },
            WorkerCommand::SendMessage { msg, from } => {
                if !msg.sender.as_str().is_ascii() || !msg.recipient.as_str().is_ascii() {
                    return (CommandReply::Failed { error: NodeError::Validation }, Vec::new());
                }
                self.send_message(msg, from, now)
            },
            WorkerCommand::BroadcastMsgByPubSub { msg } => {
                let mut actions: Vec<NodeAction> = Vec::new();
                actions.push(NodeAction::Publish { message: msg });
                (CommandReply::Done, actions)
            },
        }
    }
}

/// Whether a peer that identified itself speaks our Kademlia protocol, so
/// its addresses belong in the routing table and it becomes a gossip peer.
pub fn identify_accepts(protocols: &Vec<String>, kademlia_protocol: &String) -> (r: bool)
    ensures
        r == (exists|k: int|
            0 <= k < protocols@.len() && (#[trigger] protocols@[k])@ == kademlia_protocol@),
{
    let mut k: usize = 0;
    while k < protocols.len()
        invariant
            k <= protocols@.len(),
            forall|q: int| 0 <= q < k ==> (#[trigger] protocols@[q])@ != kademlia_protocol@,
        decreases protocols@.len() - k,
    {
        if protocols[k] == *kademlia_protocol {
            assert(protocols@[k as int]@ == kademlia_protocol@);
            return true;
        }
        k = k + 1;
    }
    false
}

/// Whether a row is waiting for a pubkey.
fn matches_waiting_for_pubkey(m: &Message) -> (b: bool)
    ensures
        b == (m@.status == MessageStatus::WaitingForPubkey),
{
    match m.status {
        MessageStatus::WaitingForPubkey => true,
        _ => false,
    }
}

} // verus!
