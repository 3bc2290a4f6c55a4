//! The message store: user-visible mails keyed by their hash, queried by
//! recipient, sender, and status.
use vstd::prelude::*;

use crate::messages::UnencryptedMsg;
use crate::models::{Message, MessageStatus, MessageView, NodeError};

verus! {

/// Unfolding step of `filter` over `push`.
pub proof fn lemma_filter_push<A>(s: Seq<A>, x: A, pred: spec_fn(A) -> bool)
    ensures
        s.push(x).filter(pred) == if pred(x) {
            s.filter(pred).push(x)
        } else {
            s.filter(pred)
        },
{
    reveal(Seq::filter);
    assert(s.push(x).drop_last() =~= s);
    assert(s.push(x).last() == x);
}

/// Every member of a filtered sequence is a member of the original and
/// satisfies the predicate.
pub proof fn lemma_filter_members<A>(s: Seq<A>, pred: spec_fn(A) -> bool, x: A)
    requires
        s.filter(pred).contains(x),
    ensures
        s.contains(x),
        pred(x),
    decreases s.len(),
{
    reveal(Seq::filter);
    if s.len() > 0 {
        let dl = s.drop_last();
        let f = s.filter(pred);
        let fd = dl.filter(pred);
        let j = choose|j: int| 0 <= j < f.len() && f[j] == x;
        if pred(s.last()) && j == f.len() - 1 {
            assert(s[s.len() - 1] == x);
        } else {
            assert(fd.contains(x)) by {
                assert(f[j] == fd[j]);
            }
            lemma_filter_members(dl, pred, x);
            let q = choose|q: int| 0 <= q < dl.len() && dl[q] == x;
            assert(s[q] == x);
        }
    }
}

/// `filter` of the empty sequence.
pub proof fn lemma_filter_empty<A>(pred: spec_fn(A) -> bool)
    ensures
        Seq::<A>::empty().filter(pred) == Seq::<A>::empty(),
{
    reveal(Seq::filter);
}

/// The views of a sequence of messages.
pub open spec fn msgs_view(s: Seq<Message>) -> Seq<MessageView> {
    Seq::new(s.len(), |k: int| s[k]@)
}

/// Taking one more element appends it.
pub proof fn lemma_take_push<A>(s: Seq<A>, k: int)
    requires
        0 <= k < s.len(),
    ensures
        s.take(k + 1) == s.take(k).push(s[k]),
{
    assert(s.take(k + 1) =~= s.take(k).push(s[k]));
}

/// Mapping to views commutes with `push`.
pub proof fn lemma_msgs_view_push(s: Seq<Message>, x: Message)
    ensures
        msgs_view(s.push(x)) == msgs_view(s).push(x@),
{
    assert forall|q: int| 0 <= q < s.len() + 1 implies msgs_view(s.push(x))[q] == msgs_view(
        s,
    ).push(x@)[q] by {
        if q < s.len() {
            assert(s.push(x)[q] == s[q]);
        } else {
            assert(s.push(x)[q] == x);
        }
    }
    assert(msgs_view(s.push(x)) =~= msgs_view(s).push(x@));
}

/// Mapping to views commutes with `update`.
pub proof fn lemma_msgs_view_update(s: Seq<Message>, k: int, x: Message)
    requires
        0 <= k < s.len(),
    ensures
        msgs_view(s.update(k, x)) == msgs_view(s).update(k, x@),
{
    assert forall|q: int| 0 <= q < s.len() implies msgs_view(s.update(k, x))[q] == msgs_view(
        s,
    ).update(k, x@)[q] by {
        if q != k {
            assert(s.update(k, x)[q] == s[q]);
        } else {
            assert(s.update(k, x)[q] == x);
        }
    }
    assert(msgs_view(s.update(k, x)) =~= msgs_view(s).update(k, x@));
}

/// The in-memory message store; rows are unique by hash.
pub struct MessageRepository {
    rows: Vec<Message>,
}

impl View for MessageRepository {
    type V = Seq<MessageView>;

    closed spec fn view(&self) -> Seq<MessageView> {
        msgs_view(self.rows@)
    }
}

/// The mails addressed to a recipient.
pub open spec fn by_recipient(address: Seq<char>) -> spec_fn(MessageView) -> bool {
    |m: MessageView| m.recipient == address
}

/// The mails sent by a sender.
pub open spec fn by_sender(address: Seq<char>) -> spec_fn(MessageView) -> bool {
    |m: MessageView| m.sender == address
}

/// The mails in a status.
pub open spec fn by_status(status: MessageStatus) -> spec_fn(MessageView) -> bool {
    |m: MessageView| m.status == status
}

/// The mails whose key differs from a hash.
pub open spec fn keeps_hash(hash: Seq<char>) -> spec_fn(MessageView) -> bool {
    |m: MessageView| m.hash != hash
}

/// Whether some row of `s` has key `h`.
pub open spec fn msgs_has(s: Seq<MessageView>, h: Seq<char>) -> bool {
    exists|k: int| 0 <= k < s.len() && (#[trigger] s[k]).hash == h
}

/// Row keys are unique.
pub open spec fn msgs_unique(s: Seq<MessageView>) -> bool {
    forall|i: int, j: int| 0 <= i < j < s.len() ==> s[i].hash != s[j].hash
}

/// Filtering keeps the keys unique, and keeps only members.
pub proof fn lemma_filter_unique(s: Seq<MessageView>, pred: spec_fn(MessageView) -> bool)
    requires
        msgs_unique(s),
    ensures
        msgs_unique(s.filter(pred)),
        forall|x: MessageView| #[trigger] s.filter(pred).contains(x) ==> s.contains(x),
    decreases s.len(),
{
    reveal(Seq::filter);
    if s.len() > 0 {
        let dl = s.drop_last();
        assert(msgs_unique(dl)) by {
            assert forall|i: int, j: int| 0 <= i < j < dl.len() implies dl[i].hash
                != dl[j].hash by {
                assert(s[i] == dl[i] && s[j] == dl[j]);
            }
        }
        lemma_filter_unique(dl, pred);
        let f = s.filter(pred);
        let fd = dl.filter(pred);
        assert forall|x: MessageView| #[trigger] f.contains(x) implies s.contains(x) by {
            if pred(s.last()) && x == s.last() {
                assert(s[s.len() - 1] == x);
            } else {
                let j = choose|j: int| 0 <= j < f.len() && f[j] == x;
                if j < fd.len() {
                    assert(fd.contains(x));
                    let q = choose|q: int| 0 <= q < dl.len() && dl[q] == x;
                    assert(s[q] == x);
                } else {
                    assert(x == s.last());
                    assert(s[s.len() - 1] == x);
                }
            }
        }
        if pred(s.last()) {
            assert(f == fd.push(s.last()));
            assert forall|i: int, j: int| 0 <= i < j < f.len() implies f[i].hash != f[j].hash by {
                if j < fd.len() {
                    assert(f[i] == fd[i] && f[j] == fd[j]);
                } else {
                    assert(f[j] == s.last());
                    assert(f[i] == fd[i]);
                    assert(fd.contains(fd[i]));
                    assert(dl.contains(fd[i]));
                    let q = choose|q: int| 0 <= q < dl.len() && dl[q] == fd[i];
                    assert(s[q] == fd[i]);
                    assert(s[q].hash != s[s.len() - 1].hash);
                }
            }
        }
    }
}

impl MessageRepository {
    pub open spec fn wf(&self) -> bool {
        msgs_unique(self@)
    }

    /// An empty store.
    pub fn new() -> (r: MessageRepository)
        ensures
            r@ == Seq::<MessageView>::empty(),
            r.wf(),
    {
        let r = MessageRepository { rows: Vec::new() };
        assert(r@ =~= Seq::<MessageView>::empty());
        r
    }

    /// Insert a row; fails exactly when its hash is already taken.
    pub fn save_model(&mut self, m: Message) -> (r: Result<(), NodeError>)
        requires
            old(self).wf(),
        ensures
            final(self).wf(),
            match r {
                Ok(()) => final(self)@ == old(self)@.push(m@) && (forall|k: int|
                    0 <= k < old(self)@.len() ==> old(self)@[k].hash != m@.hash),
                Err(e) => e == NodeError::Repository && final(self)@ == old(self)@ && (exists|
                    k: int,
                |
                    0 <= k < old(self)@.len() && old(self)@[k].hash == m@.hash),
            },
    {
        let mut k: usize = 0;
        while k < self.rows.len()
            invariant
                k <= self.rows@.len(),
                self@ == old(self)@,
                old(self).wf(),
                self.rows@ == old(self).rows@,
                forall|q: int| 0 <= q < k ==> msgs_view(self.rows@)[q].hash != m@.hash,
            decreases self.rows@.len() - k,
        {
            if self.rows[k].hash == m.hash {
                assert(msgs_view(self.rows@)[k as int].hash == m@.hash);
                return Err(NodeError::Repository);
            }
            k = k + 1;
        }
        let ghost before = self@;
        self.rows.push(m);
        assert(self@ =~= before.push(m@));
        Ok(())
    }

    /// Store a received mail: the decrypted payload becomes a row with
    /// status `Received`, keyed by the carrying object's hash string.
    pub fn save(
        &mut self,
        hash: String,
        msg: UnencryptedMsg,
        signature: Vec<u8>,
        created_at: i64,
    ) -> (r: Result<(), NodeError>)
        requires
            old(self).wf(),
        ensures
            final(self).wf(),
            match r {
                Ok(()) => {
                    &&& final(self)@.len() == old(self)@.len() + 1
                    &&& final(self)@ == old(self)@.push(final(self)@.last())
                    &&& ({
                        let row = final(self)@.last();
                        &&& row.hash == hash@
                        &&& row.sender == msg@.sender_ripe
                        &&& row.recipient == msg@.destination_ripe
                        &&& row.data == msg@.message
                        &&& row.created_at == created_at as int
                        &&& row.status == MessageStatus::Received
                        &&& row.signature == signature@
                    })
                },
                Err(e) => e == NodeError::Repository && final(self)@ == old(self)@ && (exists|
                    k: int,
                |
                    0 <= k < old(self)@.len() && old(self)@[k].hash == hash@),
            },
    {
        let model = Message {
            hash,
            sender: msg.sender_ripe,
            recipient: msg.destination_ripe,
            data: msg.message,
            created_at,
            status: MessageStatus::Received,
            signature,
        };
        self.save_model(model)
    }

    /// Whether a mail with this key is stored.
    pub fn contains_hash(&self, hash: &String) -> (b: bool)
        ensures
            b == msgs_has(self@, hash@),
    {
        let mut k: usize = 0;
        while k < self.rows.len()
            invariant
                k <= self.rows@.len(),
                forall|q: int| 0 <= q < k ==> (#[trigger] msgs_view(self.rows@)[q]).hash != hash@,
            decreases self.rows@.len() - k,
        {
            if self.rows[k].hash == *hash {
                assert(msgs_view(self.rows@)[k as int].hash == hash@);
                return true;
            }
            assert(msgs_view(self.rows@)[k as int].hash == self.rows@[k as int].hash@);
            k = k + 1;
        }
        false
    }

    /// Every stored mail, in insertion order.
    pub fn get_messages(&self) -> (r: Vec<Message>)
        ensures
            msgs_view(r@) == self@,
    {
        let mut out: Vec<Message> = Vec::new();
        let mut k: usize = 0;
        proof {
            assert(msgs_view(out@) =~= msgs_view(self.rows@).take(0));
        }
        while k < self.rows.len()
            invariant
                k <= self.rows@.len(),
                msgs_view(out@) == msgs_view(self.rows@).take(k as int),
            decreases self.rows@.len() - k,
        {
            let ghost outpre = out@;
            let c = self.rows[k].clone();
            out.push(c);
            proof {
                lemma_msgs_view_push(outpre, out@.last());
                lemma_take_push(msgs_view(self.rows@), k as int);
            }
            k = k + 1;
        }
        assert(msgs_view(self.rows@).take(self.rows@.len() as int) =~= msgs_view(self.rows@));
        out
    }

    /// The mails addressed to `address`, in insertion order.
    pub fn get_messages_by_recipient(&self, address: String) -> (r: Vec<Message>)
        ensures
            msgs_view(r@) == self@.filter(by_recipient(address@)),
    {
        let mut out: Vec<Message> = Vec::new();
        let mut k: usize = 0;
        proof {
            lemma_filter_empty(by_recipient(address@));
            assert(self@.take(0) =~= Seq::<MessageView>::empty());
            assert(msgs_view(out@) =~= Seq::<MessageView>::empty());
        }
        while k < self.rows.len()
            invariant
                k <= self.rows@.len(),
                msgs_view(out@) == msgs_view(self.rows@).take(k as int).filter(
                    by_recipient(address@),
                ),
            decreases self.rows@.len() - k,
        {
            let ghost pre = msgs_view(self.rows@).take(k as int);
            proof {
                lemma_filter_push(pre, msgs_view(self.rows@)[k as int], by_recipient(address@));
                lemma_take_push(msgs_view(self.rows@), k as int);
            }
            if self.rows[k].recipient == address {
                let ghost outpre = out@;
                let c = self.rows[k].clone();
                out.push(c);
                proof {
                    lemma_msgs_view_push(outpre, out@.last());
                }
            }
            k = k + 1;
        }
        assert(msgs_view(self.rows@).take(self.rows@.len() as int) =~= msgs_view(self.rows@));
        out
    }

    /// The mails sent by `address`, in insertion order.
    pub fn get_messages_by_sender(&self, address: String) -> (r: Vec<Message>)
        ensures
            msgs_view(r@) == self@.filter(by_sender(address@)),
    {
        let mut out: Vec<Message> = Vec::new();
        let mut k: usize = 0;
        proof {
            lemma_filter_empty(by_sender(address@));
            assert(self@.take(0) =~= Seq::<MessageView>::empty());
            assert(msgs_view(out@) =~= Seq::<MessageView>::empty());
        }
        while k < self.rows.len()
            invariant
                k <= self.rows@.len(),
                msgs_view(out@) == msgs_view(self.rows@).take(k as int).filter(
                    by_sender(address@),
                ),
            decreases self.rows@.len() - k,
        {
            let ghost pre = msgs_view(self.rows@).take(k as int);
            proof {
                lemma_filter_push(pre, msgs_view(self.rows@)[k as int], by_sender(address@));
                lemma_take_push(msgs_view(self.rows@), k as int);
            }
            if self.rows[k].sender == address {
                let ghost outpre = out@;
                let c = self.rows[k].clone();
                out.push(c);
                proof {
                    lemma_msgs_view_push(outpre, out@.last());
                }
            }
            k = k + 1;
        }
        assert(msgs_view(self.rows@).take(self.rows@.len() as int) =~= msgs_view(self.rows@));
        out
    }

    /// The mails in a given status, in insertion order.
    pub fn get_messages_by_status(&self, status: MessageStatus) -> (r: Vec<Message>)
        ensures
            msgs_view(r@) == self@.filter(by_status(status)),
    {
        let mut out: Vec<Message> = Vec::new();
        let mut k: usize = 0;
        proof {
            lemma_filter_empty(by_status(status));
            assert(self@.take(0) =~= Seq::<MessageView>::empty());
            assert(msgs_view(out@) =~= Seq::<MessageView>::empty());
        }
        while k < self.rows.len()
            invariant
                k <= self.rows@.len(),
                msgs_view(out@) == msgs_view(self.rows@).take(k as int).filter(
                    by_status(status),
                ),
            decreases self.rows@.len() - k,
        {
            let ghost pre = msgs_view(self.rows@).take(k as int);
            proof {
                lemma_filter_push(pre, msgs_view(self.rows@)[k as int], by_status(status));
                lemma_take_push(msgs_view(self.rows@), k as int);
            }
            if matches_status(&self.rows[k], status) {
                let ghost outpre = out@;
                let c = self.rows[k].clone();
                out.push(c);
                proof {
                    lemma_msgs_view_push(outpre, out@.last());
                }
            }
            k = k + 1;
        }
        assert(msgs_view(self.rows@).take(self.rows@.len() as int) =~= msgs_view(self.rows@));
        out
    }

    /// Set the status of the row keyed by `hash` (a no-op when absent, as
    /// an update of a missing row is).
    pub fn update_message_status(&mut self, hash: String, status: MessageStatus) -> (r: Result<
        (),
        NodeError,
    >)
        requires
            old(self).wf(),
        ensures
            final(self).wf(),
            r is Ok,
            final(self)@.len() == old(self)@.len(),
            forall|k: int|
                0 <= k < old(self)@.len() ==> final(self)@[k] == (if old(self)@[k].hash == hash@ {
                    MessageView { status, ..old(self)@[k] }
                } else {
                    old(self)@[k]
                }),
    {
        let n = self.rows.len();
        let mut k: usize = 0;
        while k < n
            invariant
                k <= n,
                n == self.rows@.len(),
                old(self)@.len() == n,
                forall|q: int|
                    0 <= q < k ==> msgs_view(self.rows@)[q] == (if old(self)@[q].hash == hash@ {
                        MessageView { status, ..old(self)@[q] }
                    } else {
                        old(self)@[q]
                    }),
                forall|q: int| k <= q < n ==> msgs_view(self.rows@)[q] == old(self)@[q],
                msgs_unique(old(self)@),
            decreases n - k,
        {
            if self.rows[k].hash == hash {
                let ghost rowspre = self.rows@;
                let updated = Message { status, ..self.rows[k].clone() };
                self.rows.set(k, updated);
                proof {
                    lemma_msgs_view_update(rowspre, k as int, self.rows@[k as int]);
                }
            }
            k = k + 1;
        }
        proof {
            assert forall|i: int, j: int|
                0 <= i < j < self@.len() implies self@[i].hash != self@[j].hash by {}
        }
        Ok(())
    }

    /// Re-key the row `old_hash` to `new_hash` (a no-op when absent);
    /// fails exactly when `new_hash` is already taken by another row.
    pub fn update_hash(&mut self, old_hash: String, new_hash: String) -> (r: Result<
        (),
        NodeError,
    >)
        requires
            old(self).wf(),
        ensures
            final(self).wf(),
            match r {
                Ok(()) => {
                    &&& final(self)@.len() == old(self)@.len()
                    &&& (forall|k: int|
                        0 <= k < old(self)@.len() ==> final(self)@[k] == (if old(
                            self,
                        )@[k].hash == old_hash@ {
                            MessageView { hash: new_hash@, ..old(self)@[k] }
                        } else {
                            old(self)@[k]
                        }))
                    &&& (old_hash@ == new_hash@ || !(exists|k: int|
                        0 <= k < old(self)@.len() && (#[trigger] old(self)@[k]).hash == old_hash@)
                        || (forall|k: int|
                        0 <= k < old(self)@.len() ==> (#[trigger] old(self)@[k]).hash != new_hash@))
                },
                Err(e) => {
                    &&& e == NodeError::Repository
                    &&& final(self)@ == old(self)@
                    &&& old_hash@ != new_hash@
                    &&& (exists|k: int|
                        0 <= k < old(self)@.len() && old(self)@[k].hash == new_hash@)
                    &&& (exists|k: int|
                        0 <= k < old(self)@.len() && old(self)@[k].hash == old_hash@)
                },
            },
    {
        if old_hash == new_hash {
            return Ok(());
        }
        // The new key must stay unique: refuse when both keys are present.
        let mut has_old = false;
        let mut has_new = false;
        let n = self.rows.len();
        let mut k: usize = 0;
        while k < n
            invariant
                k <= n,
                n == self.rows@.len(),
                has_old == (exists|q: int| 0 <= q < k && msgs_view(self.rows@)[q].hash == old_hash@),
                has_new == (exists|q: int| 0 <= q < k && msgs_view(self.rows@)[q].hash == new_hash@),
            decreases n - k,
        {
            if self.rows[k].hash == old_hash {
                assert(msgs_view(self.rows@)[k as int].hash == old_hash@);
                has_old = true;
            }
            if self.rows[k].hash == new_hash {
                assert(msgs_view(self.rows@)[k as int].hash == new_hash@);
                has_new = true;
            }
            k = k + 1;
        }
        if has_old && has_new {
            return Err(NodeError::Repository);
        }
        let mut t: usize = 0;
        while t < n
            invariant
                t <= n,
                n == self.rows@.len(),
                old(self)@.len() == n,
                !(exists|q: int| 0 <= q < n && old(self)@[q].hash == old_hash@) || !(exists|q: int|
                    0 <= q < n && old(self)@[q].hash == new_hash@),
                old_hash@ != new_hash@,
                msgs_unique(old(self)@),
                forall|q: int|
                    0 <= q < t ==> msgs_view(self.rows@)[q] == (if old(self)@[q].hash == old_hash@ {
                        MessageView { hash: new_hash@, ..old(self)@[q] }
                    } else {
                        old(self)@[q]
                    }),
                forall|q: int| t <= q < n ==> msgs_view(self.rows@)[q] == old(self)@[q],
            decreases n - t,
        {
            if self.rows[t].hash == old_hash {
                let ghost rowspre = self.rows@;
                let updated = Message { hash: new_hash.clone(), ..self.rows[t].clone() };
                self.rows.set(t, updated);
                proof {
                    lemma_msgs_view_update(rowspre, t as int, self.rows@[t as int]);
                }
            }
            t = t + 1;
        }
        proof {
            assert forall|i: int, j: int|
                0 <= i < j < self@.len() implies self@[i].hash != self@[j].hash by {}
        }
        Ok(())
    }

    /// Delete the row keyed by `hash` (a no-op when absent).
    pub fn remove_message(&mut self, hash: String) -> (r: Result<(), NodeError>)
        requires
            old(self).wf(),
        ensures
            final(self).wf(),
            r is Ok,
            final(self)@ == old(self)@.filter(keeps_hash(hash@)),
    {
        let mut out: Vec<Message> = Vec::new();
        let n = self.rows.len();
        let mut k: usize = 0;
        proof {
            lemma_filter_empty(keeps_hash(hash@));
            assert(msgs_view(self.rows@).take(0) =~= Seq::<MessageView>::empty());
            assert(msgs_view(out@) =~= Seq::<MessageView>::empty());
        }
        while k < n
            invariant
                k <= n,
                n == self.rows@.len(),
                self.rows@ == old(self).rows@,
                msgs_view(out@) == msgs_view(self.rows@).take(k as int).filter(
                    keeps_hash(hash@),
                ),
            decreases n - k,
        {
            let ghost pre = msgs_view(self.rows@).take(k as int);
            proof {
                lemma_filter_push(pre, msgs_view(self.rows@)[k as int], keeps_hash(hash@));
                lemma_take_push(msgs_view(self.rows@), k as int);
            }
            if !(self.rows[k].hash == hash) {
                let ghost outpre = out@;
                let c = self.rows[k].clone();
                out.push(c);
                proof {
                    lemma_msgs_view_push(outpre, out@.last());
                }
            }
            k = k + 1;
        }
        assert(msgs_view(self.rows@).take(self.rows@.len() as int) =~= msgs_view(self.rows@));
        self.rows = out;
        proof {
            lemma_filter_unique(old(self)@, keeps_hash(hash@));
        }
        Ok(())
    }
}

/// Compare a row's status with a wanted status.
fn matches_status(m: &Message, status: MessageStatus) -> (b: bool)
    ensures
        b == (m@.status == status),
{
    m.status == status
}

} // verus!
