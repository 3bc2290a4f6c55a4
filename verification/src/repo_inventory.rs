//! The inventory store: the objects this node knows, keyed by the base58
//! string of their hash. A row with an empty nonce is awaiting proof of
//! work; only rows with a completed nonce and a future expiry are
//! advertised to peers.
use vstd::prelude::*;

use crate::crypto::{base58_encode, base58_of};
use crate::messages::{Object, ObjectView};
use crate::models::NodeError;
use crate::repo_message::{lemma_filter_empty, lemma_filter_push, lemma_take_push};

verus! {

/// A stored object with its key.
pub struct InvRow {
    pub hash: String,
    pub object: Object,
}

#[verifier::ext_equal]
pub struct InvRowView {
    pub hash: Seq<char>,
    pub object: ObjectView,
}

impl View for InvRow {
    type V = InvRowView;

    open spec fn view(&self) -> InvRowView {
        InvRowView { hash: self.hash@, object: self.object@ }
    }
}

/// The views of a sequence of rows.
pub open spec fn rows_view(s: Seq<InvRow>) -> Seq<InvRowView> {
    Seq::new(s.len(), |k: int| s[k]@)
}

/// Mapping to views commutes with `push`.
pub proof fn lemma_rows_view_push(s: Seq<InvRow>, x: InvRow)
    ensures
        rows_view(s.push(x)) == rows_view(s).push(x@),
{
    assert forall|q: int| 0 <= q < s.len() + 1 implies rows_view(s.push(x))[q] == rows_view(
        s,
    ).push(x@)[q] by {
        if q < s.len() {
            assert(s.push(x)[q] == s[q]);
        } else {
            assert(s.push(x)[q] == x);
        }
    }
    assert(rows_view(s.push(x)) =~= rows_view(s).push(x@));
}

/// Mapping to views commutes with `update`.
pub proof fn lemma_rows_view_update(s: Seq<InvRow>, k: int, x: InvRow)
    requires
        0 <= k < s.len(),
    ensures
        rows_view(s.update(k, x)) == rows_view(s).update(k, x@),
{
    assert forall|q: int| 0 <= q < s.len() implies rows_view(s.update(k, x))[q] == rows_view(
        s,
    ).update(k, x@)[q] by {
        if q != k {
            assert(s.update(k, x)[q] == s[q]);
        } else {
            assert(s.update(k, x)[q] == x);
        }
    }
    assert(rows_view(s.update(k, x)) =~= rows_view(s).update(k, x@));
}

/// The views of a sequence of strings.
pub open spec fn strs_view(s: Seq<String>) -> Seq<Seq<char>> {
    Seq::new(s.len(), |k: int| s[k]@)
}

pub proof fn lemma_strs_view_push(s: Seq<String>, x: String)
    ensures
        strs_view(s.push(x)) == strs_view(s).push(x@),
{
    assert forall|q: int| 0 <= q < s.len() + 1 implies strs_view(s.push(x))[q] == strs_view(
        s,
    ).push(x@)[q] by {
        if q < s.len() {
            assert(s.push(x)[q] == s[q]);
        } else {
            assert(s.push(x)[q] == x);
        }
    }
    assert(strs_view(s.push(x)) =~= strs_view(s).push(x@));
}

/// The views of a sequence of objects.
pub open spec fn objs_view(s: Seq<Object>) -> Seq<ObjectView> {
    Seq::new(s.len(), |k: int| s[k]@)
}

pub proof fn lemma_objs_view_push(s: Seq<Object>, x: Object)
    ensures
        objs_view(s.push(x)) == objs_view(s).push(x@),
{
    assert forall|q: int| 0 <= q < s.len() + 1 implies objs_view(s.push(x))[q] == objs_view(
        s,
    ).push(x@)[q] by {
        if q < s.len() {
            assert(s.push(x)[q] == s[q]);
        } else {
            assert(s.push(x)[q] == x);
        }
    }
    assert(objs_view(s.push(x)) =~= objs_view(s).push(x@));
}

/// The keys of a sequence of rows.
pub open spec fn hashes_of(s: Seq<InvRowView>) -> Seq<Seq<char>> {
    Seq::new(s.len(), |k: int| s[k].hash)
}

pub proof fn lemma_hashes_of_push(s: Seq<InvRowView>, x: InvRowView)
    ensures
        hashes_of(s.push(x)) == hashes_of(s).push(x.hash),
{
    assert forall|q: int| 0 <= q < s.len() + 1 implies hashes_of(s.push(x))[q] == hashes_of(
        s,
    ).push(x.hash)[q] by {
        if q < s.len() {
            assert(s.push(x)[q] == s[q]);
        } else {
            assert(s.push(x)[q] == x);
        }
    }
    assert(hashes_of(s.push(x)) =~= hashes_of(s).push(x.hash));
}

/// The objects of a sequence of rows.
pub open spec fn objects_of(s: Seq<InvRowView>) -> Seq<ObjectView> {
    Seq::new(s.len(), |k: int| s[k].object)
}

pub proof fn lemma_objects_of_push(s: Seq<InvRowView>, x: InvRowView)
    ensures
        objects_of(s.push(x)) == objects_of(s).push(x.object),
{
    assert forall|q: int| 0 <= q < s.len() + 1 implies objects_of(s.push(x))[q] == objects_of(
        s,
    ).push(x.object)[q] by {
        if q < s.len() {
            assert(s.push(x)[q] == s[q]);
        } else {
            assert(s.push(x)[q] == x);
        }
    }
    assert(objects_of(s.push(x)) =~= objects_of(s).push(x.object));
}

/// Whether a row is advertised at time `now`: its proof of work is done
/// (non-empty nonce) and it has not expired.
pub open spec fn advertised(now: int) -> spec_fn(InvRowView) -> bool {
    |r: InvRowView| r.object.nonce.len() > 0 && r.object.expires > now
}

/// Whether a row is still awaiting proof of work.
pub open spec fn awaiting_pow() -> spec_fn(InvRowView) -> bool {
    |r: InvRowView| r.object.nonce.len() == 0
}

/// Whether a row outlives time `now`.
pub open spec fn unexpired(now: int) -> spec_fn(InvRowView) -> bool {
    |r: InvRowView| r.object.expires > now
}

/// Whether some row of `s` has key `h`, whatever its nonce and expiry.
pub open spec fn inv_has(s: Seq<InvRowView>, h: Seq<char>) -> bool {
    exists|k: int| 0 <= k < s.len() && (#[trigger] s[k]).hash == h
}

/// Whether some row of `s` has key `h` with completed proof of work.
pub open spec fn inv_has_ready(s: Seq<InvRowView>, h: Seq<char>) -> bool {
    exists|k: int|
        0 <= k < s.len() && (#[trigger] s[k]).hash == h && s[k].object.nonce.len() > 0
}

/// The object of a ready row keyed `h` (rows are unique by key).
pub open spec fn ready_object(s: Seq<InvRowView>, h: Seq<char>) -> ObjectView {
    let k = choose|k: int|
        0 <= k < s.len() && (#[trigger] s[k]).hash == h && s[k].object.nonce.len() > 0;
    s[k].object
}

/// The objects served for a request: for each requested key in order, the
/// stored object with completed proof of work, where there is one.
pub open spec fn served_objects(s: Seq<InvRowView>, req: Seq<Seq<char>>) -> Seq<ObjectView>
    decreases req.len(),
{
    if req.len() == 0 {
        Seq::empty()
    } else {
        let rest = served_objects(s, req.drop_last());
        if inv_has_ready(s, req.last()) {
            rest.push(ready_object(s, req.last()))
        } else {
            rest
        }
    }
}

/// Whether some row of `s` advertises `h` at time `now`.
pub open spec fn inv_advertised(s: Seq<InvRowView>, h: Seq<char>, now: int) -> bool {
    exists|k: int| 0 <= k < s.len() && s[k].hash == h && advertised(now)(s[k])
}

/// Keys of rows that do not advertise into the given inventory.
pub open spec fn missing_from(s: Seq<InvRowView>, now: int) -> spec_fn(Seq<char>) -> bool {
    |h: Seq<char>| !inv_advertised(s, h, now)
}

/// The in-memory inventory store; rows are unique by key, and each key is
/// the base58 string of its object's hash.
pub struct InventoryRepository {
    rows: Vec<InvRow>,
}

impl View for InventoryRepository {
    type V = Seq<InvRowView>;

    closed spec fn view(&self) -> Seq<InvRowView> {
        rows_view(self.rows@)
    }
}

/// Row keys are unique and consistent with the stored objects.
pub open spec fn inv_wf(s: Seq<InvRowView>) -> bool {
    &&& (forall|i: int, j: int| 0 <= i < j < s.len() ==> s[i].hash != s[j].hash)
    &&& (forall|i: int| 0 <= i < s.len() ==> (#[trigger] s[i]).hash == base58_of(s[i].object.hash))
}

impl InventoryRepository {
    pub open spec fn wf(&self) -> bool {
        inv_wf(self@)
    }

    /// An empty store.
    pub fn new() -> (r: InventoryRepository)
        ensures
            r@ == Seq::<InvRowView>::empty(),
            r.wf(),
    {
        let r = InventoryRepository { rows: Vec::new() };
        assert(r@ =~= Seq::<InvRowView>::empty());
        r
    }

    /// The advertised inventory at time `now`: the keys of exactly the rows
    /// with a completed nonce and a future expiry, in insertion order.
    pub fn get(&self, now: i64) -> (r: Vec<String>)
        ensures
            strs_view(r@) == hashes_of(self@.filter(advertised(now as int))),
    {
        let mut out: Vec<String> = Vec::new();
        let mut k: usize = 0;
        proof {
            lemma_filter_empty(advertised(now as int));
            assert(rows_view(self.rows@).take(0) =~= Seq::<InvRowView>::empty());
            assert(strs_view(out@) =~= Seq::<Seq<char>>::empty());
            assert(hashes_of(Seq::<InvRowView>::empty()) =~= Seq::<Seq<char>>::empty());
        }
        while k < self.rows.len()
            invariant
                k <= self.rows@.len(),
                strs_view(out@) == hashes_of(
                    rows_view(self.rows@).take(k as int).filter(advertised(now as int)),
                ),
            decreases self.rows@.len() - k,
        {
            let ghost pre = rows_view(self.rows@).take(k as int);
            proof {
                lemma_filter_push(pre, rows_view(self.rows@)[k as int], advertised(now as int));
                lemma_take_push(rows_view(self.rows@), k as int);
                lemma_hashes_of_push(
                    pre.filter(advertised(now as int)),
                    rows_view(self.rows@)[k as int],
                );
            }
            if self.rows[k].object.nonce.len() > 0 && self.rows[k].object.expires > now {
                let ghost outpre = out@;
                let h = self.rows[k].hash.clone();
                out.push(h);
                proof {
                    lemma_strs_view_push(outpre, out@.last());
                }
            }
            k = k + 1;
        }
        assert(rows_view(self.rows@).take(self.rows@.len() as int) =~= rows_view(self.rows@));
        out
    }

    /// The stored object named by `hash`, if its proof of work is complete.
    pub fn get_object(&self, hash: String) -> (r: Option<Object>)
        requires
            self.wf(),
        ensures
            match r {
                Some(o) => exists|k: int|
                    0 <= k < self@.len() && (#[trigger] self@[k]).hash == hash@ && self@[k].object
                        == o@ && o@.nonce.len() > 0,
                None => forall|k: int|
                    0 <= k < self@.len() && (#[trigger] self@[k]).hash == hash@
                        ==> self@[k].object.nonce.len() == 0,
            },
    {
        let mut k: usize = 0;
        while k < self.rows.len()
            invariant
                k <= self.rows@.len(),
                self.wf(),
                forall|q: int|
                    0 <= q < k && (#[trigger] rows_view(self.rows@)[q]).hash == hash@ ==> rows_view(
                        self.rows@,
                    )[q].object.nonce.len() == 0,
            decreases self.rows@.len() - k,
        {
            if self.rows[k].hash == hash {
                assert(rows_view(self.rows@)[k as int].hash == hash@);
                if self.rows[k].object.nonce.len() > 0 {
                    let o = self.rows[k].object.clone();
                    assert(rows_view(self.rows@)[k as int].object == o@);
                    return Some(o);
                }
            }
            k = k + 1;
        }
        None
    }

    /// Whether some row advertises `h` at time `now`.
    fn is_advertised(&self, h: &String, now: i64) -> (b: bool)
        ensures
            b == inv_advertised(self@, h@, now as int),
    {
        let mut k: usize = 0;
        while k < self.rows.len()
            invariant
                k <= self.rows@.len(),
                forall|q: int|
                    0 <= q < k ==> !((#[trigger] rows_view(self.rows@)[q]).hash == h@ && advertised(
                        now as int,
                    )(rows_view(self.rows@)[q])),
            decreases self.rows@.len() - k,
        {
            if self.rows[k].hash == *h && self.rows[k].object.nonce.len() > 0
                && self.rows[k].object.expires > now {
                assert(rows_view(self.rows@)[k as int].hash == h@);
                assert(advertised(now as int)(rows_view(self.rows@)[k as int]));
                return true;
            }
            assert(rows_view(self.rows@)[k as int].hash == self.rows@[k as int].hash@);
            k = k + 1;
        }
        false
    }

    /// The subset of `hashes` this node does not advertise at time `now`:
    /// exactly the incoming list minus the current inventory, in incoming
    /// order.
    pub fn get_missing_objects(&self, hashes: &Vec<String>, now: i64) -> (r: Vec<String>)
        ensures
            strs_view(r@) == strs_view(hashes@).filter(missing_from(self@, now as int)),
    {
        let mut out: Vec<String> = Vec::new();
        let mut k: usize = 0;
        proof {
            lemma_filter_empty(missing_from(self@, now as int));
            assert(strs_view(hashes@).take(0) =~= Seq::<Seq<char>>::empty());
            assert(strs_view(out@) =~= Seq::<Seq<char>>::empty());
        }
        while k < hashes.len()
            invariant
                k <= hashes@.len(),
                strs_view(out@) == strs_view(hashes@).take(k as int).filter(
                    missing_from(self@, now as int),
                ),

            decreases hashes@.len() - k,
        {
            let ghost pre = strs_view(hashes@).take(k as int);
            proof {
                lemma_filter_push(pre, strs_view(hashes@)[k as int], missing_from(self@, now as int));
                lemma_take_push(strs_view(hashes@), k as int);
            }
            if !self.is_advertised(&hashes[k], now) {
                let ghost outpre = out@;
                out.push(hashes[k].clone());
                proof {
                    lemma_strs_view_push(outpre, out@.last());
                }
            }
            k = k + 1;
        }
        assert(strs_view(hashes@).take(hashes@.len() as int) =~= strs_view(hashes@));
        out
    }

    /// Insert an object under the base58 string of its hash; fails exactly
    /// when that key is already taken.
    pub fn store_object(&mut self, o: Object) -> (r: Result<String, NodeError>)
        requires
            old(self).wf(),
        ensures
            final(self).wf(),
            match r {
                Ok(h) => {
                    &&& h@ == base58_of(o@.hash)
                    &&& final(self)@ == old(self)@.push(InvRowView { hash: h@, object: o@ })
                    &&& (forall|k: int|
                        0 <= k < old(self)@.len() ==> (#[trigger] old(self)@[k]).hash != base58_of(
                            o@.hash,
                        ))
                },
                Err(e) => {
                    &&& e == NodeError::Repository
                    &&& final(self)@ == old(self)@
                    &&& (exists|k: int|
                        0 <= k < old(self)@.len() && (#[trigger] old(self)@[k]).hash == base58_of(
                            o@.hash,
                        ))
                },
            },
    {
        let hash = base58_encode(o.hash.as_slice());
        let mut k: usize = 0;
        while k < self.rows.len()
            invariant
                k <= self.rows@.len(),
                self@ == old(self)@,
                self.rows@ == old(self).rows@,
                old(self).wf(),
                hash@ == base58_of(o@.hash),
                forall|q: int|
                    0 <= q < k ==> (#[trigger] rows_view(self.rows@)[q]).hash != hash@,
            decreases self.rows@.len() - k,
        {
            if self.rows[k].hash == hash {
                assert(rows_view(self.rows@)[k as int].hash == hash@);
                return Err(NodeError::Repository);
            }
            assert(rows_view(self.rows@)[k as int].hash == self.rows@[k as int].hash@);
            k = k + 1;
        }
        let ghost before = self@;
        let ghost rowspre = self.rows@;
        let row = InvRow { hash: hash.clone(), object: o };
        let ghost rv = row@;
        self.rows.push(row);
        proof {
            lemma_rows_view_push(rowspre, self.rows@.last());
            assert(self@ =~= before.push(rv));
        }
        Ok(hash)
    }

    /// The objects still awaiting proof of work, in insertion order.
    pub fn get_missing_pow_objects(&self) -> (r: Vec<Object>)
        ensures
            objs_view(r@) == objects_of(self@.filter(awaiting_pow())),
    {
        let mut out: Vec<Object> = Vec::new();
        let mut k: usize = 0;
        proof {
            lemma_filter_empty(awaiting_pow());
            assert(rows_view(self.rows@).take(0) =~= Seq::<InvRowView>::empty());
            assert(objs_view(out@) =~= Seq::<ObjectView>::empty());
            assert(objects_of(Seq::<InvRowView>::empty()) =~= Seq::<ObjectView>::empty());
        }
        while k < self.rows.len()
            invariant
                k <= self.rows@.len(),
                objs_view(out@) == objects_of(
                    rows_view(self.rows@).take(k as int).filter(awaiting_pow()),
                ),
            decreases self.rows@.len() - k,
        {
            let ghost pre = rows_view(self.rows@).take(k as int);
            proof {
                lemma_filter_push(pre, rows_view(self.rows@)[k as int], awaiting_pow());
                lemma_take_push(rows_view(self.rows@), k as int);
                lemma_objects_of_push(pre.filter(awaiting_pow()), rows_view(self.rows@)[k as int]);
            }
            if self.rows[k].object.nonce.len() == 0 {
                let ghost outpre = out@;
                out.push(self.rows[k].object.clone());
                proof {
                    lemma_objs_view_push(outpre, out@.last());
                }
            }
            k = k + 1;
        }
        assert(rows_view(self.rows@).take(self.rows@.len() as int) =~= rows_view(self.rows@));
        out
    }

    /// Record the completed nonce on the row keyed by `hash` (a no-op when
    /// absent).
    pub fn update_nonce(&mut self, hash: String, nonce: Vec<u8>) -> (r: Result<(), NodeError>)
        requires
            old(self).wf(),
        ensures
            final(self).wf(),
            r is Ok,
            final(self)@.len() == old(self)@.len(),
            forall|k: int|
                0 <= k < old(self)@.len() ==> final(self)@[k] == (if old(self)@[k].hash == hash@ {
                    InvRowView {
                        hash: old(self)@[k].hash,
                        object: ObjectView { nonce: nonce@, ..old(self)@[k].object },
                    }
                } else {
                    old(self)@[k]
                }),
    {
        let n = self.rows.len();
        let mut k: usize = 0;
        while k < n
            invariant
                k <= n,
                n == self.rows@.len(),
                old(self)@.len() == n,
                inv_wf(old(self)@),
                forall|q: int|
                    0 <= q < k ==> rows_view(self.rows@)[q] == (if old(self)@[q].hash == hash@ {
                        InvRowView {
                            hash: old(self)@[q].hash,
                            object: ObjectView { nonce: nonce@, ..old(self)@[q].object },
                        }
                    } else {
                        old(self)@[q]
                    }),
                forall|q: int| k <= q < n ==> rows_view(self.rows@)[q] == old(self)@[q],
            decreases n - k,
        {
            if self.rows[k].hash == hash {
                let ghost rowspre = self.rows@;
                let fresh_nonce = crate::messages::clone_bytes(&nonce);
                let old_obj = self.rows[k].object.clone();
                let updated = InvRow {
                    hash: self.rows[k].hash.clone(),
                    object: Object { nonce: fresh_nonce, ..old_obj },
                };
                self.rows.set(k, updated);
                proof {
                    lemma_rows_view_update(rowspre, k as int, self.rows@[k as int]);
                }
            }
            k = k + 1;
        }
        proof {
            assert forall|i: int, j: int|
                0 <= i < j < self@.len() implies self@[i].hash != self@[j].hash by {}
            assert forall|i: int| 0 <= i < self@.len() implies (#[trigger] self@[i]).hash
                == base58_of(self@[i].object.hash) by {}
        }
        Ok(())
    }

    /// Delete every expired row (expiry at or before `now`); the returned
    /// count is the number of rows removed, and no remaining row is expired.
    pub fn cleanup(&mut self, now: i64) -> (r: usize)
        requires
            old(self).wf(),
        ensures
            final(self).wf(),
            final(self)@ == old(self)@.filter(unexpired(now as int)),
            r == old(self)@.len() - final(self)@.len(),
            forall|k: int|
                0 <= k < final(self)@.len() ==> (#[trigger] final(self)@[k]).object.expires > now,
    {
        let mut out: Vec<InvRow> = Vec::new();
        let n = self.rows.len();
        let mut k: usize = 0;
        proof {
            lemma_filter_empty(unexpired(now as int));
            assert(rows_view(self.rows@).take(0) =~= Seq::<InvRowView>::empty());
            assert(rows_view(out@) =~= Seq::<InvRowView>::empty());
        }
        while k < n
            invariant
                k <= n,
                n == self.rows@.len(),
                self.rows@ == old(self).rows@,
                rows_view(out@) == rows_view(self.rows@).take(k as int).filter(
                    unexpired(now as int),
                ),
            decreases n - k,
        {
            let ghost pre = rows_view(self.rows@).take(k as int);
            proof {
                lemma_filter_push(pre, rows_view(self.rows@)[k as int], unexpired(now as int));
                lemma_take_push(rows_view(self.rows@), k as int);
            }
            if self.rows[k].object.expires > now {
                let ghost outpre = out@;
                let kept = InvRow {
                    hash: self.rows[k].hash.clone(),
                    object: self.rows[k].object.clone(),
                };
                out.push(kept);
                proof {
                    lemma_rows_view_push(outpre, out@.last());
                }
            }
            k = k + 1;
        }
        assert(rows_view(self.rows@).take(self.rows@.len() as int) =~= rows_view(self.rows@));
        let removed = n - out.len();
        proof {
            broadcast use vstd::prelude::Seq::lemma_filter_len;

            lemma_inv_filter_unique(old(self)@, unexpired(now as int));
            assert forall|k2: int|
                0 <= k2 < rows_view(out@).len() implies (#[trigger] rows_view(
                out@,
            )[k2]).object.expires > now by {
                vstd::prelude::Seq::lemma_filter_pred(old(self)@, unexpired(now as int), k2);
            }
        }
        self.rows = out;
        removed
    }
}

/// Inventory advertisement: a hash stands in the advertised list exactly
/// when some row holds it with a completed nonce and a future expiry.
pub proof fn lemma_inventory_advertisement(s: Seq<InvRowView>, h: Seq<char>, now: int)
    ensures
        hashes_of(s.filter(advertised(now))).contains(h) <==> inv_advertised(s, h, now),
{
    let f = s.filter(advertised(now));
    if hashes_of(f).contains(h) {
        let j = choose|j: int| 0 <= j < hashes_of(f).len() && hashes_of(f)[j] == h;
        assert(f.contains(f[j]));
        crate::repo_message::lemma_filter_members(s, advertised(now), f[j]);
        let k = choose|k: int| 0 <= k < s.len() && s[k] == f[j];
        assert(s[k].hash == h && advertised(now)(s[k]));
    }
    if inv_advertised(s, h, now) {
        let k = choose|k: int| 0 <= k < s.len() && s[k].hash == h && advertised(now)(#[trigger] s[k]);
        vstd::prelude::Seq::lemma_filter_contains(s, advertised(now), k);
        let j = choose|j: int| 0 <= j < f.len() && f[j] == s[k];
        assert(hashes_of(f)[j] == h);
    }
}

/// The missing-objects set: a hash stands in the result exactly when it
/// stands in the incoming list and this inventory does not advertise it.
pub proof fn lemma_missing_objects(s: Seq<InvRowView>, incoming: Seq<Seq<char>>, h: Seq<char>, now: int)
    ensures
        incoming.filter(missing_from(s, now)).contains(h) <==> incoming.contains(h)
            && !inv_advertised(s, h, now),
{
    let f = incoming.filter(missing_from(s, now));
    if f.contains(h) {
        crate::repo_message::lemma_filter_members(incoming, missing_from(s, now), h);
    }
    if incoming.contains(h) && !inv_advertised(s, h, now) {
        let k = choose|k: int| 0 <= k < incoming.len() && incoming[k] == h;
        assert(missing_from(s, now)(incoming[k]));
        vstd::prelude::Seq::lemma_filter_contains(incoming, missing_from(s, now), k);
    }
}

/// Filtering keeps the inventory well-formed.
pub proof fn lemma_inv_filter_unique(s: Seq<InvRowView>, pred: spec_fn(InvRowView) -> bool)
    requires
        inv_wf(s),
    ensures
        inv_wf(s.filter(pred)),
        forall|x: InvRowView| #[trigger] s.filter(pred).contains(x) ==> s.contains(x),
    decreases s.len(),
{
    reveal(Seq::filter);
    if s.len() > 0 {
        let dl = s.drop_last();
        assert(inv_wf(dl)) by {
            assert forall|i: int, j: int| 0 <= i < j < dl.len() implies dl[i].hash
                != dl[j].hash by {
                assert(s[i] == dl[i] && s[j] == dl[j]);
            }
            assert forall|i: int| 0 <= i < dl.len() implies (#[trigger] dl[i]).hash == base58_of(
                dl[i].object.hash,
            ) by {
                assert(s[i] == dl[i]);
            }
        }
        lemma_inv_filter_unique(dl, pred);
        let f = s.filter(pred);
        let fd = dl.filter(pred);
        assert forall|x: InvRowView| #[trigger] f.contains(x) implies s.contains(x) by {
            if pred(s.last()) && x == s.last() {
                assert(s[s.len() - 1] == x);
            } else {
                let j = choose|j: int| 0 <= j < f.len() && f[j] == x;
                if j < fd.len() {
                    assert(fd.contains(x));
                    let q = choose|q: int| 0 <= q < dl.len() && dl[q] == x;
                    assert(s[q] == x);
                } else {
                    assert(x == s.last());
                    assert(s[s.len() - 1] == x);
                }
            }
        }
        if pred(s.last()) {
            assert(f == fd.push(s.last()));
            assert forall|i: int, j: int| 0 <= i < j < f.len() implies f[i].hash != f[j].hash by {
                if j < fd.len() {
                    assert(f[i] == fd[i] && f[j] == fd[j]);
                } else {
                    assert(f[j] == s.last());
                    assert(f[i] == fd[i]);
                    assert(fd.contains(fd[i]));
                    assert(dl.contains(fd[i]));
                    let q = choose|q: int| 0 <= q < dl.len() && dl[q] == fd[i];
                    assert(s[q] == fd[i]);
                    assert(s[q].hash != s[s.len() - 1].hash);
                }
            }
            assert forall|i: int| 0 <= i < f.len() implies (#[trigger] f[i]).hash == base58_of(
                f[i].object.hash,
            ) by {
                if i < fd.len() {
                    assert(f[i] == fd[i]);
                } else {
                    assert(f[i] == s.last());
                    assert(s[s.len() - 1] == s.last());
                }
            }
        } else {
            assert forall|i: int| 0 <= i < f.len() implies (#[trigger] f[i]).hash == base58_of(
                f[i].object.hash,
            ) by {
                assert(f[i] == fd[i]);
            }
        }
    }
}

} // verus!
