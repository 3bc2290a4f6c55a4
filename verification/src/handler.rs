//! The protocol handler: a per-message state machine over the three stores.
//! It decides replies to the four wire verbs and, on incoming objects,
//! verifies proof of work, stores, decrypts, and emits follow-up work.
use vstd::prelude::*;

use crate::crypto::{base58_decode_of, base58_encode, base58_of, ecies_decrypt, ecies_decrypt_of, sign_of};
use crate::decode::{decode_unenc_msg, decode_unenc_pubkey};
use crate::messages::{
    spec_enc_kind, spec_enc_unenc_msg, spec_enc_unenc_pubkey, MessageCommand, MessagePayload,
    NetworkMessage, Object, ObjectKind, UnencryptedPubkey,
};
use crate::models::{MessageStatus, NodeError};
use crate::pipeline::PUBKEY_TTL_SECONDS;
use crate::pow::{check_pow, get_pow_target, pow_trial, spec_pow_target, spec_ttl};
use crate::address::{spec_deserialize_address, AddressRecordView};
use crate::repo_address::{
    first_matching, lemma_identity_row, rec_is_identity, rec_matches, AddressRepository,
};
use crate::repo_inventory::{
    advertised, hashes_of, inv_has, inv_has_ready, missing_from, ready_object, served_objects,
    strs_view, InventoryRepository,
};
use crate::repo_message::MessageRepository;

verus! {

/// Follow-up work the handler asks the node to perform.
pub enum HandlerEffect {
    /// Submit an object to the proof-of-work queue.
    EnqueuePow { object: Object },
    /// A pubkey for this tag string was learned; unblock waiting mails.
    NotifyPubkey { tag: String },
    /// Re-offer the advertised inventory on the gossip topic.
    BroadcastInv { inventory: Vec<String> },
}

/// The protocol handler owns the three stores.
pub struct Handler {
    pub addresses: AddressRepository,
    pub inventory: InventoryRepository,
    pub messages: MessageRepository,
}

impl Handler {
    pub open spec fn wf(&self) -> bool {
        &&& self.addresses.wf()
        &&& self.inventory.wf()
        &&& self.messages.wf()
    }

    pub fn new(
        addresses: AddressRepository,
        inventory: InventoryRepository,
        messages: MessageRepository,
    ) -> (r: Handler)
        ensures
            r.addresses == addresses,
            r.inventory == inventory,
            r.messages == messages,
    {
        Handler { addresses, inventory, messages }
    }

    /// Reply to ReqInv: the advertised inventory at `now`.
    pub fn handle_get_inv_message(&self, now: i64) -> (r: NetworkMessage)
        ensures
            r@.command == MessageCommand::Inv,
            r@.payload matches crate::messages::PayloadView::Inv { inventory }
                && inventory == hashes_of(self.inventory@.filter(advertised(now as int))),
    {
        let inv = self.inventory.get(now);
        NetworkMessage { command: MessageCommand::Inv, payload: MessagePayload::Inv { inventory: inv } }
    }

    /// React to Inv: request exactly the advertised hashes we lack; no
    /// request when we lack none (or the payload is not an Inv).
    pub fn handle_inv(&self, payload: MessagePayload, now: i64) -> (r: Option<NetworkMessage>)
        ensures
            match payload@ {
                crate::messages::PayloadView::Inv { inventory } => {
                    let missing = inventory.filter(missing_from(self.inventory@, now as int));
                    match r {
                        Some(m) => {
                            &&& missing.len() > 0
                            &&& m@.command == MessageCommand::GetData
                            &&& (m@.payload matches crate::messages::PayloadView::GetData {
                                inventory: req,
                            } && req == missing)
                        },
                        None => missing.len() == 0,
                    }
                },
                _ => r is None,
            },
    {
        let inv: Vec<String> = match payload {
            MessagePayload::Inv { inventory } => inventory,
            _ => {
                return None;
            },
        };
        proof {
            assert(strs_view(inv@) =~= (payload@)->Inv_inventory);
        }
        let missing = self.inventory.get_missing_objects(&inv, now);
        if missing.len() > 0 {
            Some(
                NetworkMessage {
                    command: MessageCommand::GetData,
                    payload: MessagePayload::GetData { inventory: missing },
                },
            )
        } else {
            None
        }
    }

    /// Reply to GetData: every requested object we hold with completed
    /// proof of work — all of them, and nothing else.
    pub fn handle_get_data(&self, payload: MessagePayload) -> (r: NetworkMessage)
        requires
            self.wf(),
        ensures
            r@.command == MessageCommand::Objects,
            r@.payload matches crate::messages::PayloadView::Objects { objects } && (forall|i: int|
                0 <= i < objects.len() ==> exists|k: int|
                    0 <= k < self.inventory@.len() && (#[trigger] objects[i])
                        == (#[trigger] self.inventory@[k]).object && self.inventory@[k].object.nonce.len() > 0),
            r@.payload matches crate::messages::PayloadView::Objects { objects } && (
            match payload@ {
                crate::messages::PayloadView::GetData { inventory: req } => {
                    &&& objects.len() <= req.len()
                    &&& (forall|j: int|
                        0 <= j < req.len() && inv_has_ready(self.inventory@, #[trigger] req[j])
                            ==> (exists|i: int, q: int|
                            {
                                &&& 0 <= i < objects.len()
                                &&& 0 <= q < self.inventory@.len()
                                &&& (#[trigger] objects[i]) == (#[trigger] self.inventory@[q]).object
                                &&& self.inventory@[q].hash == req[j]
                                &&& self.inventory@[q].object.nonce.len() > 0
                            }))
                },
                _ => objects.len() == 0,
            }),
            r@.payload matches crate::messages::PayloadView::Objects { objects } && (
            match payload@ {
                crate::messages::PayloadView::GetData { inventory: req } => objects
                    == served_objects(self.inventory@, req),
                _ => true,
            }),
    {
        let ghost was_getdata = payload@ is GetData;
        let ghost reqv = if payload@ is GetData {
            (payload@)->GetData_inventory
        } else {
            Seq::<Seq<char>>::empty()
        };
        let inv: Vec<String> = match payload {
            MessagePayload::GetData { inventory } => inventory,
            _ => Vec::new(),
        };
        proof {
            if was_getdata {
                assert(strs_view(inv@) =~= reqv);
            }
        }
        let mut objects: Vec<Object> = Vec::new();
        let mut k: usize = 0;
        proof {
            assert(crate::repo_inventory::objs_view(objects@) =~= Seq::<
                crate::messages::ObjectView,
            >::empty());
            assert(strs_view(inv@).take(0) =~= Seq::<Seq<char>>::empty());
            assert(served_objects(self.inventory@, Seq::<Seq<char>>::empty()) =~= Seq::<
                crate::messages::ObjectView,
            >::empty());
        }
        while k < inv.len()
            invariant
                self.wf(),
                was_getdata ==> strs_view(inv@) == reqv,
                objects@.len() <= k <= inv@.len(),
                crate::repo_inventory::objs_view(objects@) == served_objects(
                    self.inventory@,
                    strs_view(inv@).take(k as int),
                ),
                forall|i: int|
                    0 <= i < objects@.len() ==> exists|q: int|
                        0 <= q < self.inventory@.len() && (#[trigger] objects@[i]@)
                            == (#[trigger] self.inventory@[q]).object
                            && self.inventory@[q].object.nonce.len() > 0,
                forall|j: int|
                    0 <= j < k && inv_has_ready(self.inventory@, #[trigger] strs_view(inv@)[j])
                        ==> (exists|i: int, q: int|
                        {
                            &&& 0 <= i < objects@.len()
                            &&& 0 <= q < self.inventory@.len()
                            &&& (#[trigger] objects@[i]@) == (#[trigger] self.inventory@[q]).object
                            &&& self.inventory@[q].hash == strs_view(inv@)[j]
                            &&& self.inventory@[q].object.nonce.len() > 0
                        }),
            decreases inv@.len() - k,
        {
            let ghost objpre = objects@;
            proof {
                crate::repo_message::lemma_take_push(strs_view(inv@), k as int);
                assert(strs_view(inv@).take(k + 1).drop_last() =~= strs_view(inv@).take(
                    k as int,
                ));
            }
            match self.inventory.get_object(inv[k].clone()) {
                Some(obj) => {
                    let ghost ov = obj@;
                    objects.push(obj);
                    proof {
                        assert(strs_view(inv@)[k as int] == inv@[k as int]@);
                        assert(objects@[objects@.len() - 1]@ == ov);
                        let ghost h = strs_view(inv@)[k as int];
                        let ke = choose|ke: int|
                            0 <= ke < self.inventory@.len() && (
                            #[trigger] self.inventory@[ke]).hash == h && self.inventory@[ke].object
                                == ov && ov.nonce.len() > 0;
                        assert(inv_has_ready(self.inventory@, h));
                        let kc = choose|kc: int|
                            0 <= kc < self.inventory@.len() && (
                            #[trigger] self.inventory@[kc]).hash == h
                                && self.inventory@[kc].object.nonce.len() > 0;
                        assert(kc == ke);
                        assert(ready_object(self.inventory@, h) == ov);
                        crate::repo_inventory::lemma_objs_view_push(objpre, objects@.last());
                        assert(crate::repo_inventory::objs_view(objects@) == served_objects(
                            self.inventory@,
                            strs_view(inv@).take(k + 1),
                        ));
                        assert forall|j: int|
                            0 <= j < k + 1 && inv_has_ready(
                                self.inventory@,
                                #[trigger] strs_view(inv@)[j],
                            ) implies (exists|i: int, q: int|
                            {
                                &&& 0 <= i < objects@.len()
                                &&& 0 <= q < self.inventory@.len()
                                &&& (#[trigger] objects@[i]@) == (
                                #[trigger] self.inventory@[q]).object
                                &&& self.inventory@[q].hash == strs_view(inv@)[j]
                                &&& self.inventory@[q].object.nonce.len() > 0
                            }) by {
                            if j < k {
                                let (i0, q0) = choose|i0: int, q0: int|
                                    {
                                        &&& 0 <= i0 < objpre.len()
                                        &&& 0 <= q0 < self.inventory@.len()
                                        &&& (#[trigger] objpre[i0]@) == (
                                        #[trigger] self.inventory@[q0]).object
                                        &&& self.inventory@[q0].hash == strs_view(inv@)[j]
                                        &&& self.inventory@[q0].object.nonce.len() > 0
                                    };
                                assert(objects@[i0] == objpre[i0]);
                            }
                        }
                    }
                },
                None => {
                    proof {
                        assert(strs_view(inv@)[k as int] == inv@[k as int]@);
                        assert(!inv_has_ready(self.inventory@, strs_view(inv@)[k as int]));
                        assert(crate::repo_inventory::objs_view(objects@) == served_objects(
                            self.inventory@,
                            strs_view(inv@).take(k + 1),
                        ));
                    }
                },
            }
            k = k + 1;
        }
        proof {
            assert(strs_view(inv@).take(inv@.len() as int) =~= strs_view(inv@));
            if !was_getdata {
                assert(strs_view(inv@) =~= Seq::<Seq<char>>::empty());
            }
        }
        let r = NetworkMessage {
            command: MessageCommand::Objects,
            payload: MessagePayload::Objects { objects },
        };
        proof {
            assert forall|i: int|
                0 <= i < (r@.payload)->Objects_objects.len() implies exists|q: int|
                0 <= q < self.inventory@.len() && (#[trigger] (r@.payload)->Objects_objects[i])
                    == (#[trigger] self.inventory@[q]).object
                    && self.inventory@[q].object.nonce.len() > 0 by {}
            let ghost robjects = (r@.payload)->Objects_objects;
            assert(robjects.len() == objects@.len());
            if was_getdata {
                assert(strs_view(inv@).len() == inv@.len());
                assert(reqv.len() == inv@.len());
                assert forall|j: int|
                    0 <= j < reqv.len() && inv_has_ready(self.inventory@, #[trigger] reqv[j])
                        implies (exists|i: int, q: int|
                    {
                        &&& 0 <= i < robjects.len()
                        &&& 0 <= q < self.inventory@.len()
                        &&& (#[trigger] robjects[i]) == (#[trigger] self.inventory@[q]).object
                        &&& self.inventory@[q].hash == reqv[j]
                        &&& self.inventory@[q].object.nonce.len() > 0
                    }) by {
                    assert(reqv[j] == strs_view(inv@)[j]);
                    let (i0, q0) = choose|i0: int, q0: int|
                        {
                            &&& 0 <= i0 < objects@.len()
                            &&& 0 <= q0 < self.inventory@.len()
                            &&& (#[trigger] objects@[i0]@) == (
                            #[trigger] self.inventory@[q0]).object
                            &&& self.inventory@[q0].hash == strs_view(inv@)[j]
                            &&& self.inventory@[q0].object.nonce.len() > 0
                        };
                    assert(robjects[i0] == objects@[i0]@);
                }
            } else {
                assert(inv@.len() == 0);
                assert(objects@.len() == 0);
            }
        }
        r
    }

    /// Handle an incoming Msg object: try each identity's private
    /// encryption key; a successful decrypt that decodes is stored as a
    /// Received mail keyed by the object's hash string. A failed decrypt is
    /// no error (the mail may be for someone else); a bad decode is.
    pub fn handle_msg_object(&mut self, object: &Object, now: i64) -> (r: Result<(), NodeError>)
        requires
            old(self).wf(),
            object@.kind is Msg,
        ensures
            final(self).wf(),
            final(self).addresses == old(self).addresses,
            final(self).inventory == old(self).inventory,
            messages_appended_received(
                old(self).addresses@,
                old(self).messages@,
                final(self).messages@,
                object@,
            ),
            some_identity_decrypts(old(self).addresses@, object@.kind->Msg_encrypted)
                ==> final(self).messages@.len() > old(self).messages@.len() || r is Err,
            r is Err ==> r == Result::<(), NodeError>::Err(NodeError::Decode) || r == Result::<
                (),
                NodeError,
            >::Err(NodeError::Repository),
            no_identity_opens(old(self).addresses@, object@.kind->Msg_encrypted) ==> r
                == Result::<(), NodeError>::Ok(()),
            r == Result::<(), NodeError>::Err(NodeError::Decode) ==> some_decrypt_invalid(
                old(self).addresses@,
                object@.kind->Msg_encrypted,
            ),
            (some_identity_decrypts(old(self).addresses@, object@.kind->Msg_encrypted)
                && !some_decrypt_invalid(old(self).addresses@, object@.kind->Msg_encrypted)
                && !crate::repo_message::msgs_has(
                old(self).messages@,
                base58_of(object@.hash),
            )) ==> final(self).messages@.len() > old(self).messages@.len()
                && crate::repo_message::msgs_has(final(self).messages@, base58_of(object@.hash)),
    {
        let encrypted = match &object.kind {
            ObjectKind::Msg { encrypted } => encrypted,
            _ => {
                proof {
                    assert(false);
                }
                return Ok(());
            },
        };
        let identities = self.addresses.get_identities();
        let mut k: usize = 0;
        while k < identities.len()
            invariant
                old(self).wf(),
                self.wf(),
                self.addresses == old(self).addresses,
                self.inventory == old(self).inventory,
                object@.kind matches crate::messages::KindView::Msg { encrypted: enc }
                    && enc == encrypted@,
                crate::repo_address::addrs_view(identities@) == crate::repo_address::deser_seq(
                    old(self).addresses@.filter(rec_is_identity()),
                ),
                messages_appended_received(
                    old(self).addresses@,
                    old(self).messages@,
                    self.messages@,
                    object@,
                ),
                self.messages@.len() > old(self).messages@.len() || (forall|q: int|
                    0 <= q < k ==> !identity_entry_decrypts(
                        #[trigger] identities@[q]@,
                        encrypted@,
                    )),
            decreases identities@.len() - k,
        {
            let identity = &identities[k];
            match &identity.private_encryption_key {
                Some(sk) => {
                    match ecies_decrypt(sk.as_slice(), encrypted.as_slice()) {
                        Some(plaintext) => {
                            let ghost ptv = plaintext@;
                            let ghost skv0 = sk@;
                            proof {
                                crate::repo_address::lemma_bytes_deep(*sk);
                                lemma_identity_row(
                                    old(self).addresses@,
                                    crate::repo_address::addrs_view(identities@),
                                    k as int,
                                );
                                assert(crate::repo_address::addrs_view(identities@)[k as int]
                                    == identities@[k as int]@);
                            }
                            let ghost kw = choose|k2: int|
                                {
                                    &&& 0 <= k2 < old(self).addresses@.len()
                                    &&& rec_is_identity()(#[trigger] old(self).addresses@[k2])
                                    &&& spec_deserialize_address(old(self).addresses@[k2]) == Some(
                                        identities@[k as int]@,
                                    )
                                };
                            proof {
                                assert(old(self).addresses@[kw].private_encryption_key == Some(
                                    skv0,
                                ));
                                assert(ecies_decrypt_of(skv0, encrypted@) == Some(ptv));
                                assert(!no_identity_opens(old(self).addresses@, encrypted@));
                            }
                            match decode_unenc_msg(plaintext.as_slice()) {
                                Some(msg) => {
                                    let hash = base58_encode(object.hash.as_slice());
                                    let signature = crate::messages::clone_bytes(
                                        &object.signature,
                                    );
                                    let ghost skv = sk@;
                                    let ghost mv = msg@;
                                    let ghost msgs_pre = self.messages@;
                                    match self.messages.save(hash, msg, signature, now) {
                                        Ok(()) => {
                                            proof {
                                                assert(ecies_decrypt_of(skv, encrypted@) == Some(
                                                    spec_enc_unenc_msg(mv),
                                                ));
                                                crate::repo_address::lemma_bytes_deep(*sk);
                                                assert(identities@[k as int]@.private_encryption_key
                                                    == Some(skv));
                                                lemma_identity_row(
                                                    old(self).addresses@,
                                                    crate::repo_address::addrs_view(identities@),
                                                    k as int,
                                                );
                                                assert(crate::repo_address::addrs_view(
                                                    identities@,
                                                )[k as int] == identities@[k as int]@);
                                                let k2 = choose|k2: int|
                                                    {
                                                        &&& 0 <= k2 < old(self).addresses@.len()
                                                        &&& rec_is_identity()(
                                                            #[trigger] old(self).addresses@[k2],
                                                        )
                                                        &&& spec_deserialize_address(
                                                            old(self).addresses@[k2],
                                                        ) == Some(identities@[k as int]@)
                                                    };
                                                assert(old(
                                                    self,
                                                ).addresses@[k2].private_encryption_key == Some(
                                                    skv,
                                                ));
                                                assert(messages_appended_received(
                                                    old(self).addresses@,
                                                    old(self).messages@,
                                                    self.messages@,
                                                    object@,
                                                ));
                                            }
                                        },
                                        Err(_) => {
                                            proof {
                                                assert(crate::repo_message::msgs_has(
                                                    self.messages@,
                                                    base58_of(object@.hash),
                                                ));
                                                if !crate::repo_message::msgs_has(
                                                    old(self).messages@,
                                                    base58_of(object@.hash),
                                                ) && self.messages@.len() == old(
                                                    self,
                                                ).messages@.len() {
                                                    let q = choose|q: int|
                                                        0 <= q < self.messages@.len() && (
                                                        #[trigger] self.messages@[q]).hash
                                                            == base58_of(object@.hash);
                                                    assert(self.messages@[q] == old(
                                                        self,
                                                    ).messages@[q]);
                                                    assert(false);
                                                }
                                            }
                                            return Err(NodeError::Repository);
                                        },
                                    }
                                },
                                None => {
                                    proof {
                                        assert(!(exists|mv: crate::messages::UnencryptedMsgView|
                                            #[trigger] spec_enc_unenc_msg(mv) == ptv
                                                && crate::messages::unenc_msg_ascii(mv)));
                                        assert(some_decrypt_invalid(
                                            old(self).addresses@,
                                            encrypted@,
                                        ));
                                    }
                                    return Err(NodeError::Decode);
                                },
                            }
                        },
                        None => {
                            proof {
                                crate::repo_address::lemma_bytes_deep(*sk);
                                assert(!identity_entry_decrypts(
                                    identities@[k as int]@,
                                    encrypted@,
                                ));
                            }
                        },
                    }
                },
                None => {
                    proof {
                        assert(!identity_entry_decrypts(identities@[k as int]@, encrypted@));
                    }
                },
            }
            k = k + 1;
        }
        proof {
            if self.messages@.len() > old(self).messages@.len() {
                assert(self.messages@[old(self).messages@.len() as int].hash == base58_of(
                    object@.hash,
                ));
                assert(crate::repo_message::msgs_has(self.messages@, base58_of(object@.hash)));
            }
            if some_identity_decrypts(old(self).addresses@, encrypted@) && !(self.messages@.len()
                > old(self).messages@.len()) {
                let (k2, mv) = choose|k2: int, mv: crate::messages::UnencryptedMsgView|
                    #![trigger old(self).addresses@[k2], spec_enc_unenc_msg(mv)]
                    {
                        &&& 0 <= k2 < old(self).addresses@.len()
                        &&& rec_is_identity()(old(self).addresses@[k2])
                        &&& (old(self).addresses@[k2].private_encryption_key matches Some(sk)
                            && ecies_decrypt_of(sk, encrypted@) == Some(spec_enc_unenc_msg(mv)))
                        &&& crate::messages::unenc_msg_ascii(mv)
                    };
                vstd::prelude::Seq::lemma_filter_contains(
                    old(self).addresses@,
                    rec_is_identity(),
                    k2,
                );
                assert(0 <= k2 < old(self).addresses@.len());
                let frows = old(self).addresses@.filter(rec_is_identity());
                assert(frows.contains(old(self).addresses@[k2]));
                let q = choose|q: int|
                    0 <= q < frows.len() && #[trigger] frows[q] == old(self).addresses@[k2];
                assert(0 <= q < frows.len() && frows[q] == old(self).addresses@[k2]);
                assert(crate::repo_address::addrs_view(identities@) == crate::repo_address::deser_seq(frows));
                assert(crate::repo_address::addrs_view(identities@).len() == identities@.len());
                assert(crate::repo_address::deser_seq(frows).len() == frows.len());
                assert(identities@.len() == frows.len());
                assert(crate::repo_address::addrs_view(identities@)[q] == identities@[q]@);
                assert(crate::repo_address::deser_seq(frows)[q] == spec_deserialize_address(
                    frows[q],
                )->0);
                assert(identities@[q]@ == spec_deserialize_address(frows[q])->0);
                assert(spec_deserialize_address(frows[q]) is Some) by {
                    assert(crate::crypto::base58_decode_of(frows[q].address) is Some);
                }
                assert(identities@[q]@.private_encryption_key == frows[q].private_encryption_key);
                assert(identity_entry_decrypts(identities@[q]@, encrypted@));
                assert(false);
            }
        }
        Ok(())
    }
}

/// New message rows are all Received mails.
pub open spec fn messages_appended_only_received(
    before: Seq<crate::models::MessageView>,
    after: Seq<crate::models::MessageView>,
) -> bool {
    &&& after.len() >= before.len()
    &&& (forall|k: int| 0 <= k < before.len() ==> after[k] == before[k])
    &&& (forall|k: int|
        before.len() <= k < after.len() ==> (#[trigger] after[k]).status
            == MessageStatus::Received)
}

/// New inventory rows all carry verified proof of work against the target
/// derived from their own parameters and remaining time to live, and an
/// expiry within the accepted window.
pub open spec fn inventory_appended_verified(
    before: Seq<crate::repo_inventory::InvRowView>,
    after: Seq<crate::repo_inventory::InvRowView>,
    now: int,
) -> bool {
    &&& after.len() >= before.len()
    &&& (forall|k: int| 0 <= k < before.len() ==> after[k] == before[k])
    &&& (forall|k: int|
        before.len() <= k < after.len() ==> {
            let o = (#[trigger] after[k]).object;
            &&& pow_trial(o.nonce, o.hash) <= spec_pow_target(
                spec_enc_kind(o.kind).len(),
                spec_ttl(o.expires, now),
                o.nonce_trials_per_byte as nat,
                o.extra_bytes as nat,
            )
            &&& o.expires - now < 0x1_0000_0000
            &&& !inv_has(before, after[k].hash)
        })
}

/// A payload object whose acceptance must leave a Received mail behind: a
/// fresh, acceptable Msg object whose hash no earlier object of the batch
/// shares, whose ciphertext some stored identity opens — none of them to
/// garbage — and whose key is free among the stored mails.
pub open spec fn msg_mail_owed(
    objects: Seq<crate::messages::ObjectView>,
    j: int,
    addresses: Seq<AddressRecordView>,
    inventory: Seq<crate::repo_inventory::InvRowView>,
    messages: Seq<crate::models::MessageView>,
    now: int,
) -> bool {
    let o = objects[j];
    &&& 0 <= j < objects.len()
    &&& o.kind is Msg
    &&& object_acceptable(o, now)
    &&& !inv_has(inventory, base58_of(o.hash))
    &&& (forall|j2: int| 0 <= j2 < j ==> (#[trigger] objects[j2]).hash != o.hash)
    &&& some_identity_decrypts(addresses, o.kind->Msg_encrypted)
    &&& !some_decrypt_invalid(addresses, o.kind->Msg_encrypted)
    &&& !crate::repo_message::msgs_has(messages, base58_of(o.hash))
}

/// A key present in the grown inventory was either stored before the batch
/// or belongs to an earlier object of the batch.
proof fn lemma_no_fresh_row(
    pre: Seq<crate::repo_inventory::InvRowView>,
    mid: Seq<crate::repo_inventory::InvRowView>,
    objects: Seq<crate::messages::ObjectView>,
    k: int,
    kbound: int,
)
    requires
        crate::repo_inventory::inv_wf(mid),
        0 <= k < objects.len(),
        0 <= kbound <= objects.len(),
        pre.len() <= mid.len(),
        forall|p: int| 0 <= p < pre.len() ==> #[trigger] mid[p] == pre[p],
        forall|p: int|
            pre.len() <= p < mid.len() ==> exists|j: int|
                0 <= j < kbound && (#[trigger] mid[p]).object == objects[j],
        forall|j: int|
            0 <= j < kbound ==> #[trigger] base58_decode_of(base58_of(objects[j].hash)) == Some(
                objects[j].hash,
            ),
        base58_decode_of(base58_of(objects[k].hash)) == Some(objects[k].hash),
        inv_has(mid, base58_of(objects[k].hash)),
    ensures
        inv_has(pre, base58_of(objects[k].hash)) || (exists|j2: int|
            0 <= j2 < kbound && (#[trigger] objects[j2]).hash == objects[k].hash),
{
    let h = base58_of(objects[k].hash);
    let p = choose|p: int| 0 <= p < mid.len() && (#[trigger] mid[p]).hash == h;
    if p < pre.len() {
        assert(pre[p] == mid[p]);
        assert(inv_has(pre, h));
    } else {
        let j2 = choose|j2: int|
            0 <= j2 < kbound && (#[trigger] mid[p]).object == objects[j2];
        assert(mid[p].hash == base58_of(mid[p].object.hash));
        assert(base58_of(objects[j2].hash) == h);
        assert(base58_decode_of(base58_of(objects[j2].hash)) == Some(objects[j2].hash));
        assert(objects[j2].hash == objects[k].hash);
    }
}

/// A key present among the grown mails was either stored before the batch
/// or belongs to an earlier object of the batch.
proof fn lemma_no_fresh_mail(
    pre: Seq<crate::models::MessageView>,
    mid: Seq<crate::models::MessageView>,
    objects: Seq<crate::messages::ObjectView>,
    k: int,
    kbound: int,
)
    requires
        0 <= k < objects.len(),
        0 <= kbound <= objects.len(),
        pre.len() <= mid.len(),
        forall|p: int| 0 <= p < pre.len() ==> #[trigger] mid[p] == pre[p],
        forall|p: int|
            pre.len() <= p < mid.len() ==> exists|j: int|
                0 <= j < kbound && (#[trigger] mid[p]).hash == base58_of(objects[j].hash),
        forall|j: int|
            0 <= j < kbound ==> #[trigger] base58_decode_of(base58_of(objects[j].hash)) == Some(
                objects[j].hash,
            ),
        base58_decode_of(base58_of(objects[k].hash)) == Some(objects[k].hash),
        crate::repo_message::msgs_has(mid, base58_of(objects[k].hash)),
    ensures
        crate::repo_message::msgs_has(pre, base58_of(objects[k].hash)) || (exists|j2: int|
            0 <= j2 < kbound && (#[trigger] objects[j2]).hash == objects[k].hash),
{
    let h = base58_of(objects[k].hash);
    let p = choose|p: int| 0 <= p < mid.len() && (#[trigger] mid[p]).hash == h;
    if p < pre.len() {
        assert(pre[p] == mid[p]);
        assert(crate::repo_message::msgs_has(pre, h));
    } else {
        let j2 = choose|j2: int|
            0 <= j2 < kbound && (#[trigger] mid[p]).hash == base58_of(objects[j2].hash);
        assert(base58_decode_of(base58_of(objects[j2].hash)) == Some(objects[j2].hash));
        assert(objects[j2].hash == objects[k].hash);
    }
}

/// An object the handler must accept: its expiry is within the window and
/// its trial meets the target derived from its own declared parameters.
pub open spec fn object_acceptable(o: crate::messages::ObjectView, now: int) -> bool {
    &&& o.expires - now < 0x1_0000_0000
    &&& pow_trial(o.nonce, o.hash) <= spec_pow_target(
        spec_enc_kind(o.kind).len(),
        spec_ttl(o.expires, now),
        o.nonce_trials_per_byte as nat,
        o.extra_bytes as nat,
    )
}

/// Some stored identity's private encryption key opens the ciphertext to a
/// valid plaintext encoding.
pub open spec fn some_identity_decrypts(
    addresses: Seq<AddressRecordView>,
    encrypted: Seq<u8>,
) -> bool {
    exists|k: int, mv: crate::messages::UnencryptedMsgView|
        #![trigger addresses[k], spec_enc_unenc_msg(mv)]
        {
            &&& 0 <= k < addresses.len()
            &&& rec_is_identity()(addresses[k])
            &&& (addresses[k].private_encryption_key matches Some(sk) && ecies_decrypt_of(
                sk,
                encrypted,
            ) == Some(spec_enc_unenc_msg(mv)))
            &&& crate::messages::unenc_msg_ascii(mv)
        }
}

/// New message rows (relative to `before`) are Received mails keyed by the
/// carrying object's hash string, holding a payload that some stored
/// identity's private encryption key decrypts the object's ciphertext to.
pub open spec fn messages_appended_received(
    addresses: Seq<AddressRecordView>,
    before: Seq<crate::models::MessageView>,
    after: Seq<crate::models::MessageView>,
    object: crate::messages::ObjectView,
) -> bool {
    &&& after.len() >= before.len()
    &&& (forall|k: int| 0 <= k < before.len() ==> after[k] == before[k])
    &&& (forall|k: int|
        before.len() <= k < after.len() ==> {
            let row = #[trigger] after[k];
            &&& row.status == MessageStatus::Received
            &&& row.hash == base58_of(object.hash)
            &&& row.signature == object.signature
            &&& (object.kind matches crate::messages::KindView::Msg { encrypted } && exists|
                k2: int,
                mv: crate::messages::UnencryptedMsgView,
            |
                #![trigger addresses[k2], spec_enc_unenc_msg(mv)]
                {
                    &&& 0 <= k2 < addresses.len()
                    &&& rec_is_identity()(addresses[k2])
                    &&& (addresses[k2].private_encryption_key matches Some(sk)
                        && ecies_decrypt_of(sk, encrypted) == Some(spec_enc_unenc_msg(mv)))
                    &&& row.sender == mv.sender_ripe
                    &&& row.recipient == mv.destination_ripe
                    &&& row.data == mv.message
                })
        })
}

/// The address rows kept their number, identity status and private keys;
/// only the two public-key columns may have changed.
pub open spec fn addr_keys_stable(
    pre: Seq<AddressRecordView>,
    post: Seq<AddressRecordView>,
) -> bool {
    &&& post.len() == pre.len()
    &&& (forall|q: int|
        0 <= q < pre.len() ==> #[trigger] post[q] == AddressRecordView {
            public_signing_key: post[q].public_signing_key,
            public_encryption_key: post[q].public_encryption_key,
            ..pre[q]
        })
}

/// Key stability composes across two updates.
pub proof fn lemma_keys_stable_trans(
    a: Seq<AddressRecordView>,
    b: Seq<AddressRecordView>,
    c: Seq<AddressRecordView>,
)
    requires
        addr_keys_stable(a, b),
        addr_keys_stable(b, c),
    ensures
        addr_keys_stable(a, c),
{
    assert forall|q: int| 0 <= q < a.len() implies #[trigger] c[q] == AddressRecordView {
        public_signing_key: c[q].public_signing_key,
        public_encryption_key: c[q].public_encryption_key,
        ..a[q]
    } by {
        assert(b[q] == AddressRecordView {
            public_signing_key: b[q].public_signing_key,
            public_encryption_key: b[q].public_encryption_key,
            ..a[q]
        });
        assert(c[q] == AddressRecordView {
            public_signing_key: c[q].public_signing_key,
            public_encryption_key: c[q].public_encryption_key,
            ..b[q]
        });
    }
}

/// Which mails decrypt depends only on the rows' private keys, so it is
/// unchanged by public-key updates.
pub proof fn lemma_decrypts_stable(
    pre: Seq<AddressRecordView>,
    post: Seq<AddressRecordView>,
    encrypted: Seq<u8>,
)
    requires
        addr_keys_stable(pre, post),
    ensures
        some_identity_decrypts(pre, encrypted) == some_identity_decrypts(post, encrypted),
        some_decrypt_invalid(pre, encrypted) == some_decrypt_invalid(post, encrypted),
{
    assert forall|q: int| 0 <= q < pre.len() implies rec_is_identity()(#[trigger] post[q])
        == rec_is_identity()(pre[q]) && post[q].private_encryption_key
        == pre[q].private_encryption_key by {}
    if some_identity_decrypts(pre, encrypted) {
        let (k2, mv) = choose|k2: int, mv: crate::messages::UnencryptedMsgView|
            #![trigger pre[k2], spec_enc_unenc_msg(mv)]
            {
                &&& 0 <= k2 < pre.len()
                &&& rec_is_identity()(pre[k2])
                &&& (pre[k2].private_encryption_key matches Some(sk) && ecies_decrypt_of(
                    sk,
                    encrypted,
                ) == Some(spec_enc_unenc_msg(mv)))
                &&& crate::messages::unenc_msg_ascii(mv)
            };
        assert(post[k2].private_encryption_key == pre[k2].private_encryption_key);
        assert(some_identity_decrypts(post, encrypted));
    }
    if some_identity_decrypts(post, encrypted) {
        let (k2, mv) = choose|k2: int, mv: crate::messages::UnencryptedMsgView|
            #![trigger post[k2], spec_enc_unenc_msg(mv)]
            {
                &&& 0 <= k2 < post.len()
                &&& rec_is_identity()(post[k2])
                &&& (post[k2].private_encryption_key matches Some(sk) && ecies_decrypt_of(
                    sk,
                    encrypted,
                ) == Some(spec_enc_unenc_msg(mv)))
                &&& crate::messages::unenc_msg_ascii(mv)
            };
        assert(pre[k2].private_encryption_key == post[k2].private_encryption_key);
        assert(some_identity_decrypts(pre, encrypted));
    }
    if some_decrypt_invalid(pre, encrypted) {
        let k2 = choose|k2: int|
            0 <= k2 < pre.len() && rec_is_identity()(#[trigger] pre[k2])
                && (pre[k2].private_encryption_key matches Some(sk) && ecies_decrypt_of(
                sk,
                encrypted,
            ) matches Some(b) && !(exists|mv: crate::messages::UnencryptedMsgView|
                #[trigger] spec_enc_unenc_msg(mv) == b && crate::messages::unenc_msg_ascii(mv)));
        assert(post[k2].private_encryption_key == pre[k2].private_encryption_key);
        assert(some_decrypt_invalid(post, encrypted));
    }
    if some_decrypt_invalid(post, encrypted) {
        let k2 = choose|k2: int|
            0 <= k2 < post.len() && rec_is_identity()(#[trigger] post[k2])
                && (post[k2].private_encryption_key matches Some(sk) && ecies_decrypt_of(
                sk,
                encrypted,
            ) matches Some(b) && !(exists|mv: crate::messages::UnencryptedMsgView|
                #[trigger] spec_enc_unenc_msg(mv) == b && crate::messages::unenc_msg_ascii(mv)));
        assert(pre[k2].private_encryption_key == post[k2].private_encryption_key);
        assert(some_decrypt_invalid(pre, encrypted));
    }
}

/// No stored identity's private encryption key opens the ciphertext at all.
pub open spec fn no_identity_opens(
    addresses: Seq<AddressRecordView>,
    encrypted: Seq<u8>,
) -> bool {
    forall|k: int|
        0 <= k < addresses.len() && rec_is_identity()(#[trigger] addresses[k])
            ==> (addresses[k].private_encryption_key matches Some(sk) && ecies_decrypt_of(
            sk,
            encrypted,
        ) is None)
}

/// Some stored identity's private encryption key opens the ciphertext, but
/// to bytes that are no valid plaintext encoding.
pub open spec fn some_decrypt_invalid(
    addresses: Seq<AddressRecordView>,
    encrypted: Seq<u8>,
) -> bool {
    exists|k: int|
        0 <= k < addresses.len() && rec_is_identity()(#[trigger] addresses[k])
            && (addresses[k].private_encryption_key matches Some(sk) && ecies_decrypt_of(
            sk,
            encrypted,
        ) matches Some(b) && !(exists|mv: crate::messages::UnencryptedMsgView|
            #[trigger] spec_enc_unenc_msg(mv) == b && crate::messages::unenc_msg_ascii(mv)))
}

/// Whether one rebuilt identity's private encryption key opens the
/// ciphertext to a valid plaintext encoding.
pub open spec fn identity_entry_decrypts(a: crate::address::AddressView, encrypted: Seq<u8>) -> bool {
    exists|mv: crate::messages::UnencryptedMsgView|
        #![trigger spec_enc_unenc_msg(mv)]
        {
            &&& (a.private_encryption_key matches Some(sk) && ecies_decrypt_of(sk, encrypted)
                == Some(spec_enc_unenc_msg(mv)))
            &&& crate::messages::unenc_msg_ascii(mv)
        }
}

/// A pubkey reply: an object built and signed by a stored identity whose
/// tag is the requested one, carrying that identity's two public keys in an
/// envelope only the tag's derived key opens, expiring four weeks out.
pub open spec fn pubkey_reply_for(
    addresses: Seq<AddressRecordView>,
    request_tag: Seq<u8>,
    o: crate::messages::ObjectView,
    now: int,
) -> bool {
    &&& o.nonce == Seq::<u8>::empty()
    &&& o.expires == now + PUBKEY_TTL_SECONDS
    &&& o.hash == crate::messages::spec_object_hash(
        now + PUBKEY_TTL_SECONDS,
        Seq::<u8>::empty(),
        o.kind,
    )
    &&& (o.kind matches crate::messages::KindView::Pubkey { tag, encrypted } && tag == request_tag
        && (exists|k2: int, pv: crate::messages::UnencryptedPubkeyView|
        #![trigger addresses[k2], spec_enc_unenc_pubkey(pv)]
        {
            &&& 0 <= k2 < addresses.len()
            &&& rec_is_identity()(addresses[k2])
            &&& (spec_deserialize_address(addresses[k2]) matches Some(av) && {
                &&& av.tag == request_tag
                &&& o.signature == sign_of(av.private_signing_key->0, o.hash)
                &&& pv.public_signing_key == av.public_signing_key->0
                &&& pv.public_encryption_key == av.public_encryption_key->0
                &&& ecies_decrypt_of(av.public_decryption_key, encrypted) == Some(
                    spec_enc_unenc_pubkey(pv),
                )
            })
        }))
}

/// A stored identity that can answer a Getpubkey for `tag`: it carries the
/// requested tag, both serialised public keys, a valid private signing key,
/// and a tag-derived envelope key that is a valid secret key.
pub open spec fn ident_can_reply(av: crate::address::AddressView, tag: Seq<u8>) -> bool {
    &&& av.tag == tag
    &&& (av.public_signing_key matches Some(psk) && psk.len() == 65)
    &&& (av.public_encryption_key matches Some(pek) && pek.len() == 65)
    &&& crate::crypto::secret_key_ok(av.public_decryption_key)
    &&& (av.private_signing_key matches Some(sk) && crate::crypto::secret_key_ok(sk))
}

/// The effect answers the Getpubkey for `av`: a queued Pubkey object whose
/// envelope opens under `av`'s derived key to `av`'s two public keys.
pub open spec fn effect_serves(e: HandlerEffect, av: crate::address::AddressView) -> bool {
    e matches HandlerEffect::EnqueuePow { object: o } && (
    o@.kind matches crate::messages::KindView::Pubkey { tag, encrypted } && ecies_decrypt_of(
        av.public_decryption_key,
        encrypted,
    ) == Some(
        spec_enc_unenc_pubkey(
            crate::messages::UnencryptedPubkeyView {
                behaviour_bitfield: 0,
                public_signing_key: av.public_signing_key->0,
                public_encryption_key: av.public_encryption_key->0,
            },
        ),
    ))
}

impl Handler {
    /// Handle an incoming Pubkey object: find the address the tag names,
    /// open the envelope with its derived decryption key, learn the two
    /// public keys, and report the tag so waiting mails can move on. An
    /// unknown tag or an undecryptable envelope is silently ignored; a
    /// envelope that decrypts but does not decode is an error.
    #[verifier::rlimit(100)]
    #[verifier::spinoff_prover]
    pub fn handle_pubkey_object(&mut self, object: &Object) -> (r: Result<
        Option<String>,
        NodeError,
    >)
        requires
            old(self).wf(),
            object@.kind is Pubkey,
        ensures
            final(self).wf(),
            final(self).inventory == old(self).inventory,
            final(self).messages == old(self).messages,
            addr_keys_stable(old(self).addresses@, final(self).addresses@),
            match r {
                Ok(Some(tag_s)) => {
                    &&& tag_s@ == base58_of(object@.kind->Pubkey_tag)
                    &&& exists|k: int, pv: crate::messages::UnencryptedPubkeyView|
                        #![trigger spec_enc_unenc_pubkey(pv), rec_matches(old(self).addresses@[k], tag_s@)]
                        {
                            &&& 0 <= k < old(self).addresses@.len()
                            &&& rec_matches(old(self).addresses@[k], tag_s@)
                            &&& ecies_decrypt_of(
                                (crate::address::spec_deserialize_address(
                                    old(self).addresses@[k],
                                )->0).public_decryption_key,
                                object@.kind->Pubkey_encrypted,
                            ) == Some(spec_enc_unenc_pubkey(pv))
                            &&& final(self).addresses@.len() == old(self).addresses@.len()
                            &&& (forall|q: int|
                                0 <= q < old(self).addresses@.len() ==> final(self).addresses@[q]
                                    == (if rec_matches(old(self).addresses@[q], tag_s@) {
                                    crate::address::AddressRecordView {
                                        public_signing_key: Some(pv.public_signing_key),
                                        public_encryption_key: Some(pv.public_encryption_key),
                                        ..old(self).addresses@[q]
                                    }
                                } else {
                                    old(self).addresses@[q]
                                }))
                        }
                },
                Ok(None) => final(self).addresses == old(self).addresses,
                Err(e) => e == NodeError::Decode && final(self).addresses == old(self).addresses,
            },
            (forall|k: int|
                0 <= k < old(self).addresses@.len() ==> !rec_matches(
                    #[trigger] old(self).addresses@[k],
                    base58_of(object@.kind->Pubkey_tag),
                )) ==> r == Result::<Option<String>, NodeError>::Ok(None),
            forall|k0: int|
                #[trigger] first_matching(
                    old(self).addresses@,
                    base58_of(object@.kind->Pubkey_tag),
                    k0,
                ) ==> {
                    let pdk = (crate::address::spec_deserialize_address(
                        old(self).addresses@[k0],
                    )->0).public_decryption_key;
                    match ecies_decrypt_of(pdk, object@.kind->Pubkey_encrypted) {
                        Some(b) => {
                            if exists|pv: crate::messages::UnencryptedPubkeyView|
                                #[trigger] spec_enc_unenc_pubkey(pv) == b {
                                r matches Ok(t) && t is Some
                            } else {
                                r == Result::<Option<String>, NodeError>::Err(NodeError::Decode)
                            }
                        },
                        None => r == Result::<Option<String>, NodeError>::Ok(None),
                    }
                },
    {
        let (tag, encrypted) = match &object.kind {
            ObjectKind::Pubkey { tag, encrypted } => (tag, encrypted),
            _ => {
                proof {
                    assert(false);
                }
                return Ok(None);
            },
        };
        let tag_str = base58_encode(tag.as_slice());
        let found = self.addresses.get_by_ripe_or_tag(tag_str.clone());
        let address = match found {
            Some(a) => a,
            None => {
                proof {
                    assert forall|k0: int| #[trigger]
                        first_matching(self.addresses@, tag_str@, k0) implies false by {
                        assert(rec_matches(self.addresses@[k0], tag_str@));
                    }
                }
                return Ok(None);
            },
        };
        let ghost kw = choose|k: int|
            #![trigger self.addresses@[k]]
            {
                &&& 0 <= k < self.addresses@.len()
                &&& rec_matches(self.addresses@[k], tag_str@)
                &&& Some(address@) == crate::address::spec_deserialize_address(self.addresses@[k])
                &&& forall|q: int|
                    0 <= q < k ==> !rec_matches(#[trigger] self.addresses@[q], tag_str@)
            };
        let plaintext = match ecies_decrypt(
            address.public_decryption_key.as_slice(),
            encrypted.as_slice(),
        ) {
            Some(p) => p,
            None => {
                proof {
                    assert forall|k0: int| #[trigger]
                        first_matching(self.addresses@, tag_str@, k0) implies k0 == kw by {
                        if k0 < kw {
                            assert(!rec_matches(self.addresses@[k0], tag_str@));
                        }
                        if kw < k0 {
                            assert(!rec_matches(self.addresses@[kw], tag_str@));
                        }
                    }
                }
                return Ok(None);
            },
        };
        let ghost ptv = plaintext@;
        let data = match decode_unenc_pubkey(plaintext.as_slice()) {
            Some(d) => d,
            None => {
                proof {
                    assert forall|k0: int| #[trigger]
                        first_matching(self.addresses@, tag_str@, k0) implies k0 == kw
                        && ecies_decrypt_of(
                        (crate::address::spec_deserialize_address(
                            self.addresses@[k0],
                        )->0).public_decryption_key,
                        encrypted@,
                    ) == Some(ptv) && !(exists|pv2: crate::messages::UnencryptedPubkeyView|
                        #[trigger] spec_enc_unenc_pubkey(pv2) == ptv) by {
                        if k0 < kw {
                            assert(!rec_matches(self.addresses@[k0], tag_str@));
                        }
                        if kw < k0 {
                            assert(!rec_matches(self.addresses@[kw], tag_str@));
                        }
                    }
                }
                return Err(NodeError::Decode);
            },
        };
        let ghost pv = data@;
        let psk = data.public_signing_key;
        let pek = data.public_encryption_key;
        proof {
            crate::repo_address::lemma_bytes_deep(psk);
            crate::repo_address::lemma_bytes_deep(pek);
        }
        match self.addresses.update_public_keys(tag_str.clone(), psk, pek) {
            Ok(()) => {},
            Err(_) => {},
        }
        proof {
            assert({
                &&& 0 <= kw < old(self).addresses@.len()
                &&& rec_matches(old(self).addresses@[kw], tag_str@)
                &&& ecies_decrypt_of(
                    (crate::address::spec_deserialize_address(
                        old(self).addresses@[kw],
                    )->0).public_decryption_key,
                    object@.kind->Pubkey_encrypted,
                ) == Some(spec_enc_unenc_pubkey(pv))
                &&& self.addresses@.len() == old(self).addresses@.len()
                &&& (forall|q: int|
                    0 <= q < old(self).addresses@.len() ==> self.addresses@[q] == (if rec_matches(
                        old(self).addresses@[q],
                        tag_str@,
                    ) {
                        crate::address::AddressRecordView {
                            public_signing_key: Some(pv.public_signing_key),
                            public_encryption_key: Some(pv.public_encryption_key),
                            ..old(self).addresses@[q]
                        }
                    } else {
                        old(self).addresses@[q]
                    }))
            });
            assert forall|k0: int| #[trigger]
                first_matching(old(self).addresses@, tag_str@, k0) implies k0 == kw
                && ecies_decrypt_of(
                (crate::address::spec_deserialize_address(
                    old(self).addresses@[k0],
                )->0).public_decryption_key,
                encrypted@,
            ) == Some(spec_enc_unenc_pubkey(pv)) by {
                if k0 < kw {
                    assert(!rec_matches(old(self).addresses@[k0], tag_str@));
                }
                if kw < k0 {
                    assert(!rec_matches(old(self).addresses@[kw], tag_str@));
                }
            }
        }
        Ok(Some(tag_str))
    }

    /// Handle an incoming Getpubkey object: for every local identity whose
    /// tag matches, build a Pubkey object carrying our two public keys,
    /// encrypted so that only holders of the tag's derived key can open it,
    /// signed by the identity, expiring four weeks from `now`. The objects
    /// come back as proof-of-work jobs.
    pub fn handle_get_pubkey_object(&self, object: &Object, now: i64) -> (r: Vec<HandlerEffect>)
        requires
            self.wf(),
            object@.kind is Getpubkey,
            now + PUBKEY_TTL_SECONDS <= i64::MAX,
        ensures
            forall|i: int|
                0 <= i < r@.len() ==> ((#[trigger] r@[i]) matches HandlerEffect::EnqueuePow {
                    object: o,
                } && pubkey_reply_for(
                    self.addresses@,
                    object@.kind->Getpubkey_tag,
                    (r@[i])->EnqueuePow_object@,
                    now as int,
                )),
            forall|k2: int|
                0 <= k2 < self.addresses@.len() && rec_is_identity()(
                    #[trigger] self.addresses@[k2],
                ) && (spec_deserialize_address(self.addresses@[k2]) matches Some(av)
                    && ident_can_reply(av, object@.kind->Getpubkey_tag)) ==> exists|i: int|
                    0 <= i < r@.len() && effect_serves(
                        #[trigger] r@[i],
                        spec_deserialize_address(self.addresses@[k2])->0,
                    ),
    {
        let tag = match &object.kind {
            ObjectKind::Getpubkey { tag } => tag,
            _ => {
                proof {
                    assert(false);
                }
                return Vec::new();
            },
        };
        let identities = self.addresses.get_identities();
        let mut effects: Vec<HandlerEffect> = Vec::new();
        let mut k: usize = 0;
        while k < identities.len()
            invariant
                object@.kind matches crate::messages::KindView::Getpubkey { tag: tv }
                    && tv == tag@,
                now + PUBKEY_TTL_SECONDS <= i64::MAX,
                self.wf(),
                crate::repo_address::addrs_view(identities@) == crate::repo_address::deser_seq(
                    self.addresses@.filter(rec_is_identity()),
                ),
                forall|i: int|
                    0 <= i < effects@.len() ==> ((#[trigger] effects@[i])
                        matches HandlerEffect::EnqueuePow { object: o } && pubkey_reply_for(
                        self.addresses@,
                        tag@,
                        (effects@[i])->EnqueuePow_object@,
                        now as int,
                    )),
                forall|q: int|
                    #![trigger identities@[q]]
                    0 <= q < k && ident_can_reply(identities@[q]@, tag@) ==> exists|i: int|
                        0 <= i < effects@.len() && effect_serves(
                            #[trigger] effects@[i],
                            identities@[q]@,
                        ),
            decreases identities@.len() - k,
        {
            let identity = &identities[k];
            if crate::messages::eq_bytes(&identity.tag, tag) {
                let psk = match &identity.public_signing_key {
                    Some(p) => {
                        proof {
                            crate::repo_address::lemma_bytes_deep(*p);
                        }
                        crate::messages::clone_bytes(p)
                    },
                    None => {
                        proof {
                            assert(identities@[k as int]@.public_signing_key is None);
                            assert(!ident_can_reply(identities@[k as int]@, tag@));
                        }
                        k = k + 1;
                        continue ;
                    },
                };
                let pek = match &identity.public_encryption_key {
                    Some(p) => {
                        proof {
                            crate::repo_address::lemma_bytes_deep(*p);
                        }
                        crate::messages::clone_bytes(p)
                    },
                    None => {
                        proof {
                            assert(identities@[k as int]@.public_encryption_key is None);
                            assert(!ident_can_reply(identities@[k as int]@, tag@));
                        }
                        k = k + 1;
                        continue ;
                    },
                };
                let ghost pskv = psk@;
                let ghost pekv = pek@;
                let unencrypted_pubkey = UnencryptedPubkey {
                    behaviour_bitfield: 0,
                    public_signing_key: psk,
                    public_encryption_key: pek,
                };
                let ghost pv = unencrypted_pubkey@;
                let encrypted = match crate::pipeline::serialize_and_encrypt_payload(
                    &unencrypted_pubkey,
                    &identity.public_decryption_key,
                ) {
                    Some(ct) => ct,
                    None => {
                        proof {
                            if ident_can_reply(identities@[k as int]@, tag@) {
                                crate::messages::lemma_pubkey_payload_small(pv);
                                assert(crate::crypto::secret_key_ok(
                                    identity.public_decryption_key@,
                                ));
                                assert(false);
                            }
                        }
                        k = k + 1;
                        continue ;
                    },
                };
                let ghost pdk = identity.public_decryption_key@;
                let kind = ObjectKind::Pubkey {
                    tag: crate::messages::clone_bytes(&identity.tag),
                    encrypted,
                };
                match Object::with_signing(identity, kind, now + PUBKEY_TTL_SECONDS) {
                    Some(obj) => {
                        proof {
                            assert(ecies_decrypt_of(pdk, obj@.kind->Pubkey_encrypted) == Some(
                                spec_enc_unenc_pubkey(pv),
                            ));
                            lemma_identity_row(
                                self.addresses@,
                                crate::repo_address::addrs_view(identities@),
                                k as int,
                            );
                            assert(crate::repo_address::addrs_view(identities@)[k as int]
                                == identities@[k as int]@);
                            let k2 = choose|k2: int|
                                {
                                    &&& 0 <= k2 < self.addresses@.len()
                                    &&& rec_is_identity()(#[trigger] self.addresses@[k2])
                                    &&& spec_deserialize_address(self.addresses@[k2]) == Some(
                                        identities@[k as int]@,
                                    )
                                };
                            assert(identities@[k as int]@.public_signing_key == Some(pskv));
                            assert(identities@[k as int]@.public_encryption_key == Some(pekv));
                            assert(pubkey_reply_for(self.addresses@, tag@, obj@, now as int));
                        }
                        let ghost effpre = effects@;
                        effects.push(HandlerEffect::EnqueuePow { object: obj });
                        proof {
                            assert(effect_serves(effects@.last(), identities@[k as int]@));
                            assert forall|q: int|
                                #![trigger identities@[q]]
                                0 <= q < k + 1 && ident_can_reply(
                                    identities@[q]@,
                                    tag@,
                                ) implies exists|i: int|
                                0 <= i < effects@.len() && effect_serves(
                                    #[trigger] effects@[i],
                                    identities@[q]@,
                                ) by {
                                if q < k {
                                    let i0 = choose|i0: int|
                                        0 <= i0 < effpre.len() && effect_serves(
                                            #[trigger] effpre[i0],
                                            identities@[q]@,
                                        );
                                    assert(effects@[i0] == effpre[i0]);
                                } else {
                                    assert(effects@[effects@.len() - 1] == effects@.last());
                                }
                            }
                        }
                    },
                    None => {
                        proof {
                            assert(!ident_can_reply(identities@[k as int]@, tag@));
                        }
                    },
                }
            } else {
                proof {
                    assert(identities@[k as int]@.tag != tag@);
                    assert(!ident_can_reply(identities@[k as int]@, tag@));
                }
            }
            k = k + 1;
        }
        proof {
            assert forall|k2: int|
                0 <= k2 < self.addresses@.len() && rec_is_identity()(
                    #[trigger] self.addresses@[k2],
                ) && (spec_deserialize_address(self.addresses@[k2]) matches Some(av)
                    && ident_can_reply(av, tag@)) implies exists|i: int|
                0 <= i < effects@.len() && effect_serves(
                    #[trigger] effects@[i],
                    spec_deserialize_address(self.addresses@[k2])->0,
                ) by {
                vstd::prelude::Seq::lemma_filter_contains(self.addresses@, rec_is_identity(), k2);
                let frows = self.addresses@.filter(rec_is_identity());
                assert(frows.contains(self.addresses@[k2]));
                let q = choose|q: int|
                    0 <= q < frows.len() && #[trigger] frows[q] == self.addresses@[k2];
                assert(crate::repo_address::addrs_view(identities@) == crate::repo_address::deser_seq(
                    frows,
                ));
                assert(crate::repo_address::addrs_view(identities@).len() == identities@.len());
                assert(crate::repo_address::deser_seq(frows).len() == frows.len());
                assert(crate::repo_address::addrs_view(identities@)[q] == identities@[q]@);
                assert(crate::repo_address::deser_seq(frows)[q] == spec_deserialize_address(
                    frows[q],
                )->0);
                assert(identities@[q]@ == spec_deserialize_address(self.addresses@[k2])->0);
            }
        }
        effects
    }

    /// Re-offer the advertised inventory on the gossip topic.
    pub fn offer_inv(&self, now: i64) -> (r: HandlerEffect)
        ensures
            r matches HandlerEffect::BroadcastInv { inventory } && strs_view(inventory@)
                == hashes_of(self.inventory@.filter(advertised(now as int))),
    {
        let inventory = self.inventory.get(now);
        HandlerEffect::BroadcastInv { inventory }
    }

    /// Handle a batch of incoming objects. Each object is skipped when
    /// already stored, when its expiry is out of the accepted window, or
    /// when its proof of work fails against the target derived from its own
    /// parameters; otherwise it is stored, the inventory re-offered, and the
    /// object dispatched by kind. A faulty object never stops the batch.
    #[verifier::rlimit(100)]
    #[verifier::spinoff_prover]
    #[verifier::loop_isolation(false)]
    pub fn handle_objects(&mut self, payload: MessagePayload, now: i64) -> (r: Vec<HandlerEffect>)
        requires
            old(self).wf(),
            now + PUBKEY_TTL_SECONDS <= i64::MAX,
        ensures
            final(self).wf(),
            inventory_appended_verified(old(self).inventory@, final(self).inventory@, now as int),
            messages_appended_only_received(old(self).messages@, final(self).messages@),
            match payload@ {
                crate::messages::PayloadView::Objects { objects } => forall|k: int|
                    0 <= k < objects.len() && object_acceptable(#[trigger] objects[k], now as int)
                        ==> inv_has(final(self).inventory@, base58_of(objects[k].hash)),
                _ => {
                    &&& final(self).inventory@ == old(self).inventory@
                    &&& final(self).messages@ == old(self).messages@
                    &&& r@.len() == 0
                },
            },
            final(self).inventory@.len() == old(self).inventory@.len() ==> r@.len() == 0,
            final(self).inventory@.len() > old(self).inventory@.len() ==> exists|i: int|
                0 <= i < r@.len() && (#[trigger] r@[i]) is BroadcastInv,
            addr_keys_stable(old(self).addresses@, final(self).addresses@),
            final(self).inventory@.len() == old(self).inventory@.len() ==> final(self).messages@
                == old(self).messages@ && final(self).addresses@ == old(self).addresses@
                && final(self).inventory@ == old(self).inventory@,
            match payload@ {
                crate::messages::PayloadView::Objects { objects } => {
                    &&& (forall|p: int|
                        old(self).inventory@.len() <= p < final(self).inventory@.len()
                            ==> exists|j: int|
                            0 <= j < objects.len() && (#[trigger] final(self).inventory@[p]).object
                                == objects[j])
                    &&& (forall|j: int|
                        #[trigger] msg_mail_owed(
                            objects,
                            j,
                            old(self).addresses@,
                            old(self).inventory@,
                            old(self).messages@,
                            now as int,
                        ) ==> crate::repo_message::msgs_has(
                            final(self).messages@,
                            base58_of(objects[j].hash),
                        ))
                },
                _ => final(self).addresses@ == old(self).addresses@,
            },
    {
        let ghost payload_objects = if payload@ is Objects {
            (payload@)->Objects_objects
        } else {
            Seq::<crate::messages::ObjectView>::empty()
        };
        let objects: Vec<Object> = match payload {
            MessagePayload::Objects { objects } => objects,
            _ => {
                return Vec::new();
            },
        };
        proof {
            assert(crate::repo_inventory::objs_view(objects@) =~= payload_objects);
        }
        let mut effects: Vec<HandlerEffect> = Vec::new();
        let mut k: usize = 0;
        while k < objects.len()
            invariant
                self.wf(),
                k <= objects@.len(),
                now + PUBKEY_TTL_SECONDS <= i64::MAX,
                crate::repo_inventory::objs_view(objects@) == payload_objects,
                inventory_appended_verified(
                    old(self).inventory@,
                    self.inventory@,
                    now as int,
                ),
                messages_appended_only_received(old(self).messages@, self.messages@),
                forall|j: int|
                    0 <= j < k && object_acceptable(#[trigger] payload_objects[j], now as int)
                        ==> inv_has(self.inventory@, base58_of(payload_objects[j].hash)),
                self.inventory@.len() == old(self).inventory@.len() ==> effects@.len() == 0,
                self.inventory@.len() > old(self).inventory@.len() ==> exists|i: int|
                    0 <= i < effects@.len() && (#[trigger] effects@[i]) is BroadcastInv,
                addr_keys_stable(old(self).addresses@, self.addresses@),
                self.inventory@.len() == old(self).inventory@.len() ==> self.messages@ == old(
                    self,
                ).messages@ && self.addresses@ == old(self).addresses@ && self.inventory@ == old(
                    self,
                ).inventory@,
                forall|p: int|
                    old(self).inventory@.len() <= p < self.inventory@.len() ==> exists|j: int|
                        0 <= j < k && (#[trigger] self.inventory@[p]).object
                            == payload_objects[j],
                forall|p: int|
                    old(self).messages@.len() <= p < self.messages@.len() ==> exists|j: int|
                        0 <= j < k && (#[trigger] self.messages@[p]).hash == base58_of(
                            payload_objects[j].hash,
                        ),
                forall|j: int|
                    0 <= j < k ==> #[trigger] base58_decode_of(
                        base58_of(payload_objects[j].hash),
                    ) == Some(payload_objects[j].hash),
                forall|j: int|
                    0 <= j < k && #[trigger] msg_mail_owed(
                        payload_objects,
                        j,
                        old(self).addresses@,
                        old(self).inventory@,
                        old(self).messages@,
                        now as int,
                    ) ==> crate::repo_message::msgs_has(
                        self.messages@,
                        base58_of(payload_objects[j].hash),
                    ),
            decreases objects@.len() - k,
        {
            let obj = &objects[k];
            proof {
                assert(payload_objects[k as int] == obj@);
            }
            let hash_str = base58_encode(obj.hash.as_slice());
            if self.inventory.get_object(hash_str.clone()).is_some() {
                // Already stored: a duplicate is silently ignored.
                proof {
                    assert(inv_has(self.inventory@, base58_of(payload_objects[k as int].hash)));
                    lemma_no_fresh_row(
                        old(self).inventory@,
                        self.inventory@,
                        payload_objects,
                        k as int,
                        k as int,
                    );
                }
                k = k + 1;
                continue ;
            }
            if !((obj.expires as i128 - now as i128) < 0x1_0000_0000) {
                // An expiry this far out is rejected outright.
                proof {
                    assert(!object_acceptable(payload_objects[k as int], now as int));
                }
                k = k + 1;
                continue ;
            }
            let target = get_pow_target(obj, obj.nonce_trials_per_byte, obj.extra_bytes, now);
            if check_pow(target, &obj.nonce, &obj.hash).is_err() {
                // Insufficient proof of work: the object is dropped, not stored.
                proof {
                    assert(!object_acceptable(payload_objects[k as int], now as int));
                }
                k = k + 1;
                continue ;
            }
            let ghost invpre = self.inventory@;
            match self.inventory.store_object(obj.clone()) {
                Ok(_) => {},
                Err(_) => {
                    proof {
                        assert(inv_has(
                            self.inventory@,
                            base58_of(payload_objects[k as int].hash),
                        ));
                        lemma_no_fresh_row(
                            old(self).inventory@,
                            self.inventory@,
                            payload_objects,
                            k as int,
                            k as int,
                        );
                    }
                    k = k + 1;
                    continue ;
                },
            }
            proof {
                assert(self.inventory@.last().hash == base58_of(payload_objects[k as int].hash));
                assert(inv_has(self.inventory@, base58_of(payload_objects[k as int].hash)));
            }
            let ghost effpre = effects@.len() as int;
            effects.push(self.offer_inv(now));
            proof {
                assert(effects@[effpre] is BroadcastInv);
            }
            let ghost midaddrs = self.addresses@;
            let ghost midmsgs = self.messages@;
            let ghost midinv = self.inventory@;
            match &obj.kind {
                ObjectKind::Msg { .. } => {
                    // A failed decrypt or decode only drops this object.
                    let ghost enc = obj@.kind->Msg_encrypted;
                    proof {
                        lemma_decrypts_stable(old(self).addresses@, midaddrs, enc);
                    }
                    let _ = self.handle_msg_object(obj, now);
                    proof {
                        if msg_mail_owed(
                            payload_objects,
                            k as int,
                            old(self).addresses@,
                            old(self).inventory@,
                            old(self).messages@,
                            now as int,
                        ) {
                            let h = base58_of(payload_objects[k as int].hash);
                            assert(!crate::repo_message::msgs_has(midmsgs, h)) by {
                                if crate::repo_message::msgs_has(midmsgs, h) {
                                    lemma_no_fresh_mail(
                                        old(self).messages@,
                                        midmsgs,
                                        payload_objects,
                                        k as int,
                                        k as int,
                                    );
                                }
                            }
                            assert(crate::repo_message::msgs_has(self.messages@, h));
                        }
                    }
                },
                ObjectKind::Broadcast { .. } => {
                    // Broadcasts are not supported; the object stays stored.
                },
                ObjectKind::Getpubkey { .. } => {
                    let mut new_effects = self.handle_get_pubkey_object(obj, now);
                    let mut t: usize = 0;
                    while t < new_effects.len()
                        invariant
                            t <= new_effects@.len(),
                            effects@.len() > effpre,
                            effects@[effpre] is BroadcastInv,
                        decreases new_effects@.len() - t,
                    {
                        let e = match &new_effects[t] {
                            HandlerEffect::EnqueuePow { object } => HandlerEffect::EnqueuePow {
                                object: object.clone(),
                            },
                            HandlerEffect::NotifyPubkey { tag } => HandlerEffect::NotifyPubkey {
                                tag: tag.clone(),
                            },
                            HandlerEffect::BroadcastInv { inventory } => {
                                let mut inv2: Vec<String> = Vec::new();
                                let mut w: usize = 0;
                                while w < inventory.len()
                                    invariant
                                        w <= inventory@.len(),
                                    decreases inventory@.len() - w,
                                {
                                    inv2.push(inventory[w].clone());
                                    w = w + 1;
                                }
                                HandlerEffect::BroadcastInv { inventory: inv2 }
                            },
                        };
                        effects.push(e);
                        t = t + 1;
                    }
                },
                ObjectKind::Pubkey { .. } => {
                    match self.handle_pubkey_object(obj) {
                        Ok(Some(tag)) => {
                            effects.push(HandlerEffect::NotifyPubkey { tag });
                        },
                        Ok(None) => {},
                        Err(_) => {},
                    }
                },
            }
            proof {
                assert(effects@[effpre] is BroadcastInv);
                assert forall|j: int|
                    0 <= j < k + 1 && object_acceptable(
                        #[trigger] payload_objects[j],
                        now as int,
                    ) implies inv_has(self.inventory@, base58_of(payload_objects[j].hash)) by {
                    if j < k {
                        let h = base58_of(payload_objects[j].hash);
                        assert(inv_has(invpre, h));
                        let q0 = choose|q0: int|
                            0 <= q0 < invpre.len() && (#[trigger] invpre[q0]).hash == h;
                        assert(self.inventory@[q0] == invpre[q0]);
                    } else {
                        assert(inv_has(self.inventory@, base58_of(payload_objects[k as int].hash)));
                    }
                }
                assert(addr_keys_stable(old(self).addresses@, self.addresses@)) by {
                    assert(addr_keys_stable(midaddrs, self.addresses@));
                    lemma_keys_stable_trans(old(self).addresses@, midaddrs, self.addresses@);
                }
                assert(base58_decode_of(base58_of(payload_objects[k as int].hash)) == Some(
                    payload_objects[k as int].hash,
                ));
                assert forall|p: int|
                    old(self).inventory@.len() <= p < self.inventory@.len() implies exists|j: int|
                    0 <= j < k + 1 && (#[trigger] self.inventory@[p]).object
                        == payload_objects[j] by {
                    if p < invpre.len() {
                        assert(self.inventory@[p] == invpre[p]);
                        let j = choose|j: int|
                            0 <= j < k && (#[trigger] invpre[p]).object == payload_objects[j];
                        assert(self.inventory@[p].object == payload_objects[j]);
                    } else {
                        assert(self.inventory@[p].object == payload_objects[k as int]);
                    }
                }
                assert forall|p: int|
                    old(self).messages@.len() <= p < self.messages@.len() implies exists|j: int|
                    0 <= j < k + 1 && (#[trigger] self.messages@[p]).hash == base58_of(
                        payload_objects[j].hash,
                    ) by {
                    if p < midmsgs.len() {
                        assert(self.messages@[p] == midmsgs[p]);
                        let j = choose|j: int|
                            0 <= j < k && (#[trigger] midmsgs[p]).hash == base58_of(
                                payload_objects[j].hash,
                            );
                        assert(self.messages@[p].hash == base58_of(payload_objects[j].hash));
                    } else {
                        assert(self.messages@[p].hash == base58_of(
                            payload_objects[k as int].hash,
                        ));
                    }
                }
                assert forall|j: int|
                    0 <= j < k + 1 && #[trigger] msg_mail_owed(
                        payload_objects,
                        j,
                        old(self).addresses@,
                        old(self).inventory@,
                        old(self).messages@,
                        now as int,
                    ) implies crate::repo_message::msgs_has(
                    self.messages@,
                    base58_of(payload_objects[j].hash),
                ) by {
                    if j < k {
                        let h2 = base58_of(payload_objects[j].hash);
                        let p2 = choose|p2: int|
                            0 <= p2 < midmsgs.len() && (#[trigger] midmsgs[p2]).hash == h2;
                        assert(self.messages@[p2] == midmsgs[p2]);
                        assert(crate::repo_message::msgs_has(self.messages@, h2));
                    }
                }
            }
            k = k + 1;
        }
        effects
    }

    /// Dispatch one wire message: ReqInv and GetData always get a reply,
    /// Inv gets one exactly when something is missing, and Objects only has
    /// side effects.
    pub fn handle_message(&mut self, msg: NetworkMessage, now: i64) -> (r: (
        Option<NetworkMessage>,
        Vec<HandlerEffect>,
    ))
        requires
            old(self).wf(),
            now + PUBKEY_TTL_SECONDS <= i64::MAX,
        ensures
            final(self).wf(),
            match msg@.command {
                MessageCommand::ReqInv => {
                    &&& *final(self) == *old(self)
                    &&& r.1@.len() == 0
                    &&& (r.0 matches Some(m) && m@.command == MessageCommand::Inv && (
                    m@.payload matches crate::messages::PayloadView::Inv { inventory }
                        && inventory == hashes_of(
                        old(self).inventory@.filter(advertised(now as int)),
                    )))
                },
                MessageCommand::Inv => {
                    &&& *final(self) == *old(self)
                    &&& r.1@.len() == 0
                    &&& (match msg@.payload {
                        crate::messages::PayloadView::Inv { inventory } => {
                            let missing = inventory.filter(
                                missing_from(old(self).inventory@, now as int),
                            );
                            match r.0 {
                                Some(m) => {
                                    &&& missing.len() > 0
                                    &&& m@.command == MessageCommand::GetData
                                    &&& (m@.payload
                                        matches crate::messages::PayloadView::GetData {
                                        inventory: req,
                                    } && req == missing)
                                },
                                None => missing.len() == 0,
                            }
                        },
                        _ => r.0 is None,
                    })
                },
                MessageCommand::GetData => {
                    &&& *final(self) == *old(self)
                    &&& r.1@.len() == 0
                    &&& (r.0 matches Some(m) && m@.command == MessageCommand::Objects && (
                    m@.payload matches crate::messages::PayloadView::Objects { objects } && {
                        &&& (forall|i: int|
                            0 <= i < objects.len() ==> exists|q: int|
                                0 <= q < old(self).inventory@.len() && (#[trigger] objects[i])
                                    == (#[trigger] old(self).inventory@[q]).object && old(
                                    self,
                                ).inventory@[q].object.nonce.len() > 0)
                        &&& (match msg@.payload {
                            crate::messages::PayloadView::GetData { inventory: req } => {
                                &&& objects.len() <= req.len()
                                &&& (forall|j: int|
                                    0 <= j < req.len() && inv_has_ready(
                                        old(self).inventory@,
                                        #[trigger] req[j],
                                    ) ==> (exists|i: int, q: int|
                                        {
                                            &&& 0 <= i < objects.len()
                                            &&& 0 <= q < old(self).inventory@.len()
                                            &&& (#[trigger] objects[i]) == (#[trigger] old(
                                                self,
                                            ).inventory@[q]).object
                                            &&& old(self).inventory@[q].hash == req[j]
                                            &&& old(self).inventory@[q].object.nonce.len() > 0
                                        }))
                            },
                            _ => objects.len() == 0,
                        })
                        &&& (match msg@.payload {
                            crate::messages::PayloadView::GetData { inventory: req } => objects
                                == served_objects(old(self).inventory@, req),
                            _ => true,
                        })
                    }))
                },
                MessageCommand::Objects => {
                    &&& r.0 is None
                    &&& inventory_appended_verified(
                        old(self).inventory@,
                        final(self).inventory@,
                        now as int,
                    )
                    &&& messages_appended_only_received(
                        old(self).messages@,
                        final(self).messages@,
                    )
                    &&& (match msg@.payload {
                        crate::messages::PayloadView::Objects { objects } => forall|k: int|
                            0 <= k < objects.len() && object_acceptable(
                                #[trigger] objects[k],
                                now as int,
                            ) ==> inv_has(final(self).inventory@, base58_of(objects[k].hash)),
                        _ => final(self).inventory@ == old(self).inventory@
                            && final(self).messages@ == old(self).messages@ && r.1@.len() == 0,
                    })
                    &&& (final(self).inventory@.len() == old(self).inventory@.len() ==> r.1@.len()
                        == 0)
                    &&& (final(self).inventory@.len() > old(self).inventory@.len() ==> exists|
                        i: int,
                    |
                        0 <= i < r.1@.len() && (#[trigger] r.1@[i]) is BroadcastInv)
                },
            },
    {
        match msg.command {
            MessageCommand::GetData => (Some(self.handle_get_data(msg.payload)), Vec::new()),
            MessageCommand::Inv => (self.handle_inv(msg.payload, now), Vec::new()),
            MessageCommand::ReqInv => (Some(self.handle_get_inv_message(now)), Vec::new()),
            MessageCommand::Objects => {
                let effects = self.handle_objects(msg.payload, now);
                let result = (None, effects);
                proof {
                    if self.inventory@.len() > old(self).inventory@.len() {
                        let i0 = choose|i0: int|
                            0 <= i0 < result.1@.len() && (#[trigger] result.1@[i0])
                                is BroadcastInv;
                        assert(result.1@[i0] is BroadcastInv);
                    }
                }
                result
            },
        }
    }
}

} // verus!
