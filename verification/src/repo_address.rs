//! The address store: identities and contacts as rows keyed by their
//! display string, with the tag indexed for pubkey lookups.
use vstd::prelude::*;

use crate::address::{
    deserialize_address, serialize_address, spec_deserialize_address, spec_serialize_address,
    Address, AddressRecord, AddressRecordView, AddressView,
};
use crate::crypto::base58_decode_of;
use crate::models::NodeError;
use crate::repo_message::{lemma_filter_empty, lemma_filter_push, lemma_take_push};

verus! {

/// A byte vector's deep view is its view.
pub proof fn lemma_bytes_deep(v: Vec<u8>)
    ensures
        v.deep_view() == v@,
{
    assert(v.deep_view() =~= v@);
}

/// The views of a sequence of records.
pub open spec fn recs_view(s: Seq<AddressRecord>) -> Seq<AddressRecordView> {
    Seq::new(s.len(), |k: int| s[k]@)
}

pub proof fn lemma_recs_view_push(s: Seq<AddressRecord>, x: AddressRecord)
    ensures
        recs_view(s.push(x)) == recs_view(s).push(x@),
{
    assert forall|q: int| 0 <= q < s.len() + 1 implies recs_view(s.push(x))[q] == recs_view(
        s,
    ).push(x@)[q] by {
        if q < s.len() {
            assert(s.push(x)[q] == s[q]);
        } else {
            assert(s.push(x)[q] == x);
        }
    }
    assert(recs_view(s.push(x)) =~= recs_view(s).push(x@));
}

pub proof fn lemma_recs_view_update(s: Seq<AddressRecord>, k: int, x: AddressRecord)
    requires
        0 <= k < s.len(),
    ensures
        recs_view(s.update(k, x)) == recs_view(s).update(k, x@),
{
    assert forall|q: int| 0 <= q < s.len() implies recs_view(s.update(k, x))[q] == recs_view(
        s,
    ).update(k, x@)[q] by {
        if q != k {
            assert(s.update(k, x)[q] == s[q]);
        } else {
            assert(s.update(k, x)[q] == x);
        }
    }
    assert(recs_view(s.update(k, x)) =~= recs_view(s).update(k, x@));
}

/// The views of a sequence of addresses.
pub open spec fn addrs_view(s: Seq<Address>) -> Seq<AddressView> {
    Seq::new(s.len(), |k: int| s[k]@)
}

pub proof fn lemma_addrs_view_push(s: Seq<Address>, x: Address)
    ensures
        addrs_view(s.push(x)) == addrs_view(s).push(x@),
{
    assert forall|q: int| 0 <= q < s.len() + 1 implies addrs_view(s.push(x))[q] == addrs_view(
        s,
    ).push(x@)[q] by {
        if q < s.len() {
            assert(s.push(x)[q] == s[q]);
        } else {
            assert(s.push(x)[q] == x);
        }
    }
    assert(addrs_view(s.push(x)) =~= addrs_view(s).push(x@));
}

/// The addresses a sequence of decodable records denotes.
pub open spec fn deser_seq(s: Seq<AddressRecordView>) -> Seq<AddressView> {
    Seq::new(s.len(), |k: int| spec_deserialize_address(s[k])->0)
}

pub proof fn lemma_deser_seq_push(s: Seq<AddressRecordView>, x: AddressRecordView)
    ensures
        deser_seq(s.push(x)) == deser_seq(s).push(spec_deserialize_address(x)->0),
{
    assert forall|q: int| 0 <= q < s.len() + 1 implies deser_seq(s.push(x))[q] == deser_seq(
        s,
    ).push(spec_deserialize_address(x)->0)[q] by {
        if q < s.len() {
            assert(s.push(x)[q] == s[q]);
        } else {
            assert(s.push(x)[q] == x);
        }
    }
    assert(deser_seq(s.push(x)) =~= deser_seq(s).push(spec_deserialize_address(x)->0));
}

/// A record matches a lookup key when the key is its display string or its
/// tag string.
pub open spec fn rec_matches(r: AddressRecordView, key: Seq<char>) -> bool {
    r.address == key || r.tag == key
}

/// Records holding both public keys (contacts).
pub open spec fn rec_is_contact() -> spec_fn(AddressRecordView) -> bool {
    |r: AddressRecordView| r.public_signing_key is Some && r.public_encryption_key is Some
}

/// Records holding both private keys (identities).
pub open spec fn rec_is_identity() -> spec_fn(AddressRecordView) -> bool {
    |r: AddressRecordView| r.private_signing_key is Some && r.private_encryption_key is Some
}

/// `k` is the first row matching a lookup key.
pub open spec fn first_matching(s: Seq<AddressRecordView>, key: Seq<char>, k: int) -> bool {
    &&& 0 <= k < s.len()
    &&& rec_matches(s[k], key)
    &&& (forall|q: int| 0 <= q < k ==> !rec_matches(#[trigger] s[q], key))
}

/// Records whose display string differs from a key.
pub open spec fn rec_keeps(key: Seq<char>) -> spec_fn(AddressRecordView) -> bool {
    |r: AddressRecordView| r.address != key
}

/// Row keys are unique and every row decodes back to an address.
pub open spec fn addr_repo_wf(s: Seq<AddressRecordView>) -> bool {
    &&& (forall|i: int, j: int| 0 <= i < j < s.len() ==> s[i].address != s[j].address)
    &&& (forall|i: int|
        0 <= i < s.len() ==> base58_decode_of((#[trigger] s[i]).address) is Some)
}

/// The in-memory address store.
pub struct AddressRepository {
    rows: Vec<AddressRecord>,
}

impl View for AddressRepository {
    type V = Seq<AddressRecordView>;

    closed spec fn view(&self) -> Seq<AddressRecordView> {
        recs_view(self.rows@)
    }
}

impl AddressRepository {
    pub open spec fn wf(&self) -> bool {
        addr_repo_wf(self@)
    }

    /// An empty store.
    pub fn new() -> (r: AddressRepository)
        ensures
            r@ == Seq::<AddressRecordView>::empty(),
            r.wf(),
    {
        let r = AddressRepository { rows: Vec::new() };
        assert(r@ =~= Seq::<AddressRecordView>::empty());
        r
    }

    /// Insert an address as a row; fails exactly when its display string is
    /// already taken.
    pub fn store(&mut self, a: Address) -> (r: Result<(), NodeError>)
        requires
            old(self).wf(),
            base58_decode_of(a@.string_repr) is Some,
        ensures
            final(self).wf(),
            match r {
                Ok(()) => final(self)@ == old(self)@.push(spec_serialize_address(a@)) && (forall|
                    k: int,
                |
                    0 <= k < old(self)@.len() ==> (#[trigger] old(self)@[k]).address
                        != a@.string_repr),
                Err(e) => {
                    &&& e == NodeError::Repository
                    &&& final(self)@ == old(self)@
                    &&& (exists|k: int|
                        0 <= k < old(self)@.len() && (#[trigger] old(self)@[k]).address
                            == a@.string_repr)
                },
            },
    {
        let rec = serialize_address(&a);
        let mut k: usize = 0;
        while k < self.rows.len()
            invariant
                k <= self.rows@.len(),
                self@ == old(self)@,
                self.rows@ == old(self).rows@,
                old(self).wf(),
                rec@ == spec_serialize_address(a@),
                forall|q: int|
                    0 <= q < k ==> (#[trigger] recs_view(self.rows@)[q]).address != a@.string_repr,
            decreases self.rows@.len() - k,
        {
            if self.rows[k].address == rec.address {
                assert(recs_view(self.rows@)[k as int].address == a@.string_repr);
                return Err(NodeError::Repository);
            }
            assert(recs_view(self.rows@)[k as int].address == self.rows@[k as int].address@);
            k = k + 1;
        }
        let ghost before = self@;
        let ghost rowspre = self.rows@;
        self.rows.push(rec);
        proof {
            lemma_recs_view_push(rowspre, self.rows@.last());
            assert(self@ =~= before.push(spec_serialize_address(a@)));
        }
        Ok(())
    }

    /// Look up an address by display string or tag string; the first
    /// matching row, rebuilt.
    pub fn get_by_ripe_or_tag(&self, hash: String) -> (r: Option<Address>)
        requires
            self.wf(),
        ensures
            match r {
                Some(a) => exists|k: int|
                    #![trigger self@[k]]
                    {
                        &&& 0 <= k < self@.len()
                        &&& rec_matches(self@[k], hash@)
                        &&& Some(a@) == spec_deserialize_address(self@[k])
                        &&& forall|q: int| 0 <= q < k ==> !rec_matches(#[trigger] self@[q], hash@)
                    },
                None => forall|k: int|
                    0 <= k < self@.len() ==> !rec_matches(#[trigger] self@[k], hash@),
            },
    {
        let mut k: usize = 0;
        while k < self.rows.len()
            invariant
                k <= self.rows@.len(),
                self.wf(),
                forall|q: int|
                    0 <= q < k ==> !rec_matches(#[trigger] recs_view(self.rows@)[q], hash@),
            decreases self.rows@.len() - k,
        {
            if self.rows[k].address == hash || self.rows[k].tag == hash {
                assert(rec_matches(recs_view(self.rows@)[k as int], hash@));
                match deserialize_address(&self.rows[k]) {
                    Some(a) => {
                        assert(Some(a@) == spec_deserialize_address(
                            recs_view(self.rows@)[k as int],
                        ));
                        return Some(a);
                    },
                    None => {
                        // Excluded by well-formedness: every stored row decodes.
                        assert(false);
                    },
                }
            }
            assert(!rec_matches(recs_view(self.rows@)[k as int], hash@));
            k = k + 1;
        }
        None
    }

    /// The stored contacts: every row holding both public keys, rebuilt, in
    /// insertion order.
    pub fn get_contacts(&self) -> (r: Vec<Address>)
        requires
            self.wf(),
        ensures
            addrs_view(r@) == deser_seq(self@.filter(rec_is_contact())),
    {
        let mut out: Vec<Address> = Vec::new();
        let mut k: usize = 0;
        proof {
            lemma_filter_empty(rec_is_contact());
            assert(recs_view(self.rows@).take(0) =~= Seq::<AddressRecordView>::empty());
            assert(addrs_view(out@) =~= Seq::<AddressView>::empty());
            assert(deser_seq(Seq::<AddressRecordView>::empty()) =~= Seq::<AddressView>::empty());
        }
        while k < self.rows.len()
            invariant
                k <= self.rows@.len(),
                self.wf(),
                addrs_view(out@) == deser_seq(
                    recs_view(self.rows@).take(k as int).filter(rec_is_contact()),
                ),
            decreases self.rows@.len() - k,
        {
            let ghost pre = recs_view(self.rows@).take(k as int);
            proof {
                lemma_filter_push(pre, recs_view(self.rows@)[k as int], rec_is_contact());
                lemma_take_push(recs_view(self.rows@), k as int);
                lemma_deser_seq_push(
                    pre.filter(rec_is_contact()),
                    recs_view(self.rows@)[k as int],
                );
            }
            if has_both_public(&self.rows[k]) {
                match deserialize_address(&self.rows[k]) {
                    Some(a) => {
                        let ghost outpre = out@;
                        out.push(a);
                        proof {
                            lemma_addrs_view_push(outpre, out@.last());
                        }
                    },
                    None => {
                        assert(false);
                    },
                }
            }
            k = k + 1;
        }
        assert(recs_view(self.rows@).take(self.rows@.len() as int) =~= recs_view(self.rows@));
        out
    }

    /// The stored identities: every row holding both private keys, rebuilt,
    /// in insertion order.
    pub fn get_identities(&self) -> (r: Vec<Address>)
        requires
            self.wf(),
        ensures
            addrs_view(r@) == deser_seq(self@.filter(rec_is_identity())),
    {
        let mut out: Vec<Address> = Vec::new();
        let mut k: usize = 0;
        proof {
            lemma_filter_empty(rec_is_identity());
            assert(recs_view(self.rows@).take(0) =~= Seq::<AddressRecordView>::empty());
            assert(addrs_view(out@) =~= Seq::<AddressView>::empty());
            assert(deser_seq(Seq::<AddressRecordView>::empty()) =~= Seq::<AddressView>::empty());
        }
        while k < self.rows.len()
            invariant
                k <= self.rows@.len(),
                self.wf(),
                addrs_view(out@) == deser_seq(
                    recs_view(self.rows@).take(k as int).filter(rec_is_identity()),
                ),
            decreases self.rows@.len() - k,
        {
            let ghost pre = recs_view(self.rows@).take(k as int);
            proof {
                lemma_filter_push(pre, recs_view(self.rows@)[k as int], rec_is_identity());
                lemma_take_push(recs_view(self.rows@), k as int);
                lemma_deser_seq_push(
                    pre.filter(rec_is_identity()),
                    recs_view(self.rows@)[k as int],
                );
            }
            if has_both_private(&self.rows[k]) {
                match deserialize_address(&self.rows[k]) {
                    Some(a) => {
                        let ghost outpre = out@;
                        out.push(a);
                        proof {
                            lemma_addrs_view_push(outpre, out@.last());
                        }
                    },
                    None => {
                        assert(false);
                    },
                }
            }
            k = k + 1;
        }
        assert(recs_view(self.rows@).take(self.rows@.len() as int) =~= recs_view(self.rows@));
        out
    }

    /// Learn the public keys of the rows matching `hash` (by display string
    /// or tag).
    pub fn update_public_keys(
        &mut self,
        hash: String,
        public_signing_key: Vec<u8>,
        public_encryption_key: Vec<u8>,
    ) -> (r: Result<(), NodeError>)
        requires
            old(self).wf(),
        ensures
            final(self).wf(),
            r is Ok,
            final(self)@.len() == old(self)@.len(),
            forall|k: int|
                0 <= k < old(self)@.len() ==> final(self)@[k] == (if rec_matches(
                    old(self)@[k],
                    hash@,
                ) {
                    AddressRecordView {
                        public_signing_key: Some(public_signing_key@),
                        public_encryption_key: Some(public_encryption_key@),
                        ..old(self)@[k]
                    }
                } else {
                    old(self)@[k]
                }),
    {
        let n = self.rows.len();
        let mut k: usize = 0;
        while k < n
            invariant
                k <= n,
                n == self.rows@.len(),
                old(self)@.len() == n,
                addr_repo_wf(old(self)@),
                forall|q: int|
                    0 <= q < k ==> recs_view(self.rows@)[q] == (if rec_matches(
                        old(self)@[q],
                        hash@,
                    ) {
                        AddressRecordView {
                            public_signing_key: Some(public_signing_key@),
                            public_encryption_key: Some(public_encryption_key@),
                            ..old(self)@[q]
                        }
                    } else {
                        old(self)@[q]
                    }),
                forall|q: int| k <= q < n ==> recs_view(self.rows@)[q] == old(self)@[q],
            decreases n - k,
        {
            if self.rows[k].address == hash || self.rows[k].tag == hash {
                let ghost rowspre = self.rows@;
                let psk = crate::messages::clone_bytes(&public_signing_key);
                let pek = crate::messages::clone_bytes(&public_encryption_key);
                let old_row = row_clone(&self.rows[k]);
                proof {
                    lemma_bytes_deep(psk);
                    lemma_bytes_deep(pek);
                }
                let updated = AddressRecord {
                    public_signing_key: Some(psk),
                    public_encryption_key: Some(pek),
                    ..old_row
                };
                self.rows.set(k, updated);
                proof {
                    lemma_recs_view_update(rowspre, k as int, self.rows@[k as int]);
                }
            }
            k = k + 1;
        }
        proof {
            assert forall|i: int, j: int|
                0 <= i < j < self@.len() implies self@[i].address != self@[j].address by {}
            assert forall|i: int| 0 <= i < self@.len() implies base58_decode_of(
                (#[trigger] self@[i]).address,
            ) is Some by {}
        }
        Ok(())
    }

    /// Rename the row keyed by `address`.
    pub fn update_label(&mut self, address: String, new_label: String) -> (r: Result<
        (),
        NodeError,
    >)
        requires
            old(self).wf(),
        ensures
            final(self).wf(),
            r is Ok,
            final(self)@.len() == old(self)@.len(),
            forall|k: int|
                0 <= k < old(self)@.len() ==> final(self)@[k] == (if old(
                    self,
                )@[k].address == address@ {
                    AddressRecordView { label: Some(new_label@), ..old(self)@[k] }
                } else {
                    old(self)@[k]
                }),
    {
        let n = self.rows.len();
        let mut k: usize = 0;
        while k < n
            invariant
                k <= n,
                n == self.rows@.len(),
                old(self)@.len() == n,
                addr_repo_wf(old(self)@),
                forall|q: int|
                    0 <= q < k ==> recs_view(self.rows@)[q] == (if old(
                        self,
                    )@[q].address == address@ {
                        AddressRecordView { label: Some(new_label@), ..old(self)@[q] }
                    } else {
                        old(self)@[q]
                    }),
                forall|q: int| k <= q < n ==> recs_view(self.rows@)[q] == old(self)@[q],
            decreases n - k,
        {
            if self.rows[k].address == address {
                let ghost rowspre = self.rows@;
                let old_row = row_clone(&self.rows[k]);
                let updated = AddressRecord { label: Some(new_label.clone()), ..old_row };
                self.rows.set(k, updated);
                proof {
                    lemma_recs_view_update(rowspre, k as int, self.rows@[k as int]);
                }
            }
            k = k + 1;
        }
        proof {
            assert forall|i: int, j: int|
                0 <= i < j < self@.len() implies self@[i].address != self@[j].address by {}
            assert forall|i: int| 0 <= i < self@.len() implies base58_decode_of(
                (#[trigger] self@[i]).address,
            ) is Some by {}
        }
        Ok(())
    }

    /// Delete the row keyed by `address` (a no-op when absent).
    pub fn delete_address(&mut self, address: String) -> (r: Result<(), NodeError>)
        requires
            old(self).wf(),
        ensures
            final(self).wf(),
            r is Ok,
            final(self)@ == old(self)@.filter(rec_keeps(address@)),
    {
        let mut out: Vec<AddressRecord> = Vec::new();
        let n = self.rows.len();
        let mut k: usize = 0;
        proof {
            lemma_filter_empty(rec_keeps(address@));
            assert(recs_view(self.rows@).take(0) =~= Seq::<AddressRecordView>::empty());
            assert(recs_view(out@) =~= Seq::<AddressRecordView>::empty());
        }
        while k < n
            invariant
                k <= n,
                n == self.rows@.len(),
                self.rows@ == old(self).rows@,
                recs_view(out@) == recs_view(self.rows@).take(k as int).filter(
                    rec_keeps(address@),
                ),
            decreases n - k,
        {
            let ghost pre = recs_view(self.rows@).take(k as int);
            proof {
                lemma_filter_push(pre, recs_view(self.rows@)[k as int], rec_keeps(address@));
                lemma_take_push(recs_view(self.rows@), k as int);
            }
            if !(self.rows[k].address == address) {
                let ghost outpre = out@;
                let kept = row_clone(&self.rows[k]);
                out.push(kept);
                proof {
                    lemma_recs_view_push(outpre, out@.last());
                }
            }
            k = k + 1;
        }
        assert(recs_view(self.rows@).take(self.rows@.len() as int) =~= recs_view(self.rows@));
        self.rows = out;
        proof {
            lemma_addr_filter_wf(old(self)@, rec_keeps(address@));
        }
        Ok(())
    }
}

/// Whether a row holds both public keys.
fn has_both_public(r: &AddressRecord) -> (b: bool)
    ensures
        b == rec_is_contact()(r@),
{
    match (&r.public_signing_key, &r.public_encryption_key) {
        (Some(_), Some(_)) => true,
        _ => false,
    }
}

/// Whether a row holds both private keys.
fn has_both_private(r: &AddressRecord) -> (b: bool)
    ensures
        b == rec_is_identity()(r@),
{
    match (&r.private_signing_key, &r.private_encryption_key) {
        (Some(_), Some(_)) => true,
        _ => false,
    }
}

/// Copy a record, keeping its contents.
fn row_clone(r: &AddressRecord) -> (c: AddressRecord)
    ensures
        c@ == r@,
{
    let c = AddressRecord {
        address: r.address.clone(),
        tag: r.tag.clone(),
        public_signing_key: crate::address::clone_opt_bytes(&r.public_signing_key),
        public_encryption_key: crate::address::clone_opt_bytes(&r.public_encryption_key),
        private_signing_key: crate::address::clone_opt_bytes(&r.private_signing_key),
        private_encryption_key: crate::address::clone_opt_bytes(&r.private_encryption_key),
        label: match &r.label {
            Some(l) => Some(l.clone()),
            None => None,
        },
    };
    assert(c@ == r@);
    c
}

/// Every entry of the rebuilt identity list is the image of a stored
/// identity row.
pub proof fn lemma_identity_row(addresses: Seq<AddressRecordView>, identities: Seq<AddressView>, k: int)
    requires
        addr_repo_wf(addresses),
        identities == deser_seq(addresses.filter(rec_is_identity())),
        0 <= k < identities.len(),
    ensures
        exists|k2: int|
            {
                &&& 0 <= k2 < addresses.len()
                &&& rec_is_identity()(#[trigger] addresses[k2])
                &&& spec_deserialize_address(addresses[k2]) == Some(identities[k])
            },
{
    let frows = addresses.filter(rec_is_identity());
    let rec = frows[k];
    assert(frows.contains(rec));
    crate::repo_message::lemma_filter_members(addresses, rec_is_identity(), rec);
    let k2 = choose|k2: int| 0 <= k2 < addresses.len() && addresses[k2] == rec;
    assert(base58_decode_of(addresses[k2].address) is Some);
    assert(spec_deserialize_address(addresses[k2]) == Some(identities[k]));
}

/// Filtering keeps the address store well-formed.
pub proof fn lemma_addr_filter_wf(s: Seq<AddressRecordView>, pred: spec_fn(AddressRecordView) -> bool)
    requires
        addr_repo_wf(s),
    ensures
        addr_repo_wf(s.filter(pred)),
    decreases s.len(),
{
    reveal(Seq::filter);
    if s.len() > 0 {
        let dl = s.drop_last();
        assert(addr_repo_wf(dl)) by {
            assert forall|i: int, j: int| 0 <= i < j < dl.len() implies dl[i].address
                != dl[j].address by {
                assert(s[i] == dl[i] && s[j] == dl[j]);
            }
            assert forall|i: int| 0 <= i < dl.len() implies base58_decode_of(
                (#[trigger] dl[i]).address,
            ) is Some by {
                assert(s[i] == dl[i]);
            }
        }
        lemma_addr_filter_wf(dl, pred);
        let f = s.filter(pred);
        let fd = dl.filter(pred);
        if pred(s.last()) {
            assert(f == fd.push(s.last()));
            assert forall|i: int, j: int| 0 <= i < j < f.len() implies f[i].address
                != f[j].address by {
                if j < fd.len() {
                    assert(f[i] == fd[i] && f[j] == fd[j]);
                } else {
                    assert(f[j] == s.last());
                    assert(f[i] == fd[i]);
                    assert(fd.contains(fd[i]));
                    lemma_addr_filter_members(dl, pred, fd[i]);
                    let q = choose|q: int| 0 <= q < dl.len() && dl[q] == fd[i];
                    assert(s[q] == fd[i]);
                    assert(s[q].address != s[s.len() - 1].address);
                }
            }
            assert forall|i: int| 0 <= i < f.len() implies base58_decode_of(
                (#[trigger] f[i]).address,
            ) is Some by {
                if i < fd.len() {
                    assert(f[i] == fd[i]);
                } else {
                    assert(f[i] == s.last());
                    assert(s[s.len() - 1] == s.last());
                }
            }
        } else {
            assert forall|i: int| 0 <= i < f.len() implies base58_decode_of(
                (#[trigger] f[i]).address,
            ) is Some by {
                assert(f[i] == fd[i]);
            }
        }
    }
}

/// Every member of a filtered sequence is a member of the original.
pub proof fn lemma_addr_filter_members(
    s: Seq<AddressRecordView>,
    pred: spec_fn(AddressRecordView) -> bool,
    x: AddressRecordView,
)
    requires
        s.filter(pred).contains(x),
    ensures
        s.contains(x),
    decreases s.len(),
{
    reveal(Seq::filter);
    if s.len() > 0 {
        let dl = s.drop_last();
        let f = s.filter(pred);
        let fd = dl.filter(pred);
        let j = choose|j: int| 0 <= j < f.len() && f[j] == x;
        if pred(s.last()) && j == f.len() - 1 {
            assert(s[s.len() - 1] == x);
        } else {
            assert(fd.contains(x)) by {
                assert(f[j] == fd[j]);
            }
            lemma_addr_filter_members(dl, pred, x);
            let q = choose|q: int| 0 <= q < dl.len() && dl[q] == x;
            assert(s[q] == x);
        }
    }
}

} // verus!
