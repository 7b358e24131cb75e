//! The keyspace: a map from key to value with an optional absolute expiry
//! per key, expired lazily on read. Also used for the read-only config map.
//!
//! The store is modelled by two mathematical maps: `vals` (key to value)
//! and `exps` (key to expiry instant, in milliseconds). Every key with an
//! expiry also has a value; expiry instants are compared against a caller
//! supplied clock reading, so everything here is deterministic.

use vstd::prelude::*;

use crate::bytes::{bytes_eq, copy_range};

verus! {

struct Entry {
    key: Vec<u8>,
    value: Vec<u8>,
    expires_at: Option<u64>,
}

/// Key/value store with per-key optional expiry.
pub struct Keyspace {
    entries: Vec<Entry>,
}

spec fn wf_entries(es: Seq<Entry>) -> bool {
    forall|i: int, j: int| 0 <= i < j < es.len() ==> es[i].key@ != es[j].key@
}

spec fn vals_of(es: Seq<Entry>) -> Map<Seq<u8>, Seq<u8>>
    decreases es,
{
    if es.len() == 0 {
        Map::<Seq<u8>, Seq<u8>>::empty()
    } else {
        vals_of(es.drop_last()).insert(es.last().key@, es.last().value@)
    }
}

spec fn exps_of(es: Seq<Entry>) -> Map<Seq<u8>, u64>
    decreases es,
{
    if es.len() == 0 {
        Map::<Seq<u8>, u64>::empty()
    } else {
        match es.last().expires_at {
            Some(t) => exps_of(es.drop_last()).insert(es.last().key@, t),
            None => exps_of(es.drop_last()),
        }
    }
}

proof fn lemma_absent(es: Seq<Entry>, k: Seq<u8>)
    requires
        forall|i: int| 0 <= i < es.len() ==> es[i].key@ != k,
    ensures
        !vals_of(es).contains_key(k),
        !exps_of(es).contains_key(k),
    decreases es,
{
    if es.len() > 0 {
        assert(forall|i: int|
            0 <= i < es.drop_last().len() ==> es.drop_last()[i].key@ != k);
        lemma_absent(es.drop_last(), k);
        assert(es.last().key@ != k);
    }
}

proof fn lemma_entry_maps(es: Seq<Entry>, i: int)
    requires
        wf_entries(es),
        0 <= i < es.len(),
    ensures
        vals_of(es).contains_key(es[i].key@),
        vals_of(es)[es[i].key@] == es[i].value@,
        match es[i].expires_at {
            Some(t) => exps_of(es).contains_key(es[i].key@) && exps_of(es)[es[i].key@] == t,
            None => !exps_of(es).contains_key(es[i].key@),
        },
    decreases es,
{
    let k = es[i].key@;
    if i == es.len() - 1 {
        if es[i].expires_at is None {
            assert(forall|j: int|
                0 <= j < es.drop_last().len() ==> es.drop_last()[j].key@ != k);
            lemma_absent(es.drop_last(), k);
        }
    } else {
        assert(wf_entries(es.drop_last()));
        assert(es.drop_last()[i] == es[i]);
        lemma_entry_maps(es.drop_last(), i);
        assert(es.last().key@ != k);
    }
}

proof fn lemma_update(es: Seq<Entry>, i: int, e2: Entry)
    requires
        wf_entries(es),
        0 <= i < es.len(),
        e2.key@ == es[i].key@,
    ensures
        wf_entries(es.update(i, e2)),
        vals_of(es.update(i, e2)) == vals_of(es).insert(e2.key@, e2.value@),
        exps_of(es.update(i, e2)) == match e2.expires_at {
            Some(t) => exps_of(es).insert(e2.key@, t),
            None => exps_of(es).remove(e2.key@),
        },
    decreases es,
{
    let k = e2.key@;
    let es2 = es.update(i, e2);
    assert(wf_entries(es2)) by {
        assert(forall|a: int, b: int|
            0 <= a < b < es2.len() ==> es2[a].key@ != es2[b].key@) by {
            assert(forall|a: int| 0 <= a < es.len() && a != i ==> es2[a] == es[a]);
            assert(es2[i].key@ == es[i].key@);
        }
    }
    if i == es.len() - 1 {
        assert(es2.drop_last() =~= es.drop_last());
        assert(es2.last() == e2);
        assert(forall|j: int|
            0 <= j < es.drop_last().len() ==> es.drop_last()[j].key@ != k);
        lemma_absent(es.drop_last(), k);
        assert(vals_of(es2) =~= vals_of(es).insert(k, e2.value@));
        match e2.expires_at {
            Some(t) => {
                assert(exps_of(es2) =~= exps_of(es).insert(k, t));
            }
            None => {
                assert(exps_of(es2) == exps_of(es.drop_last()));
                assert(exps_of(es2) =~= exps_of(es).remove(k));
            }
        }
    } else {
        assert(wf_entries(es.drop_last()));
        assert(es.drop_last()[i] == es[i]);
        lemma_update(es.drop_last(), i, e2);
        assert(es2.drop_last() =~= es.drop_last().update(i, e2));
        assert(es2.last() == es.last());
        assert(es.last().key@ != k);
        assert(vals_of(es2) =~= vals_of(es).insert(k, e2.value@));
        match e2.expires_at {
            Some(t) => {
                assert(exps_of(es2) =~= exps_of(es).insert(k, t));
            }
            None => {
                assert(exps_of(es2) =~= exps_of(es).remove(k));
            }
        }
    }
}

proof fn lemma_remove(es: Seq<Entry>, i: int)
    requires
        wf_entries(es),
        0 <= i < es.len(),
    ensures
        wf_entries(es.remove(i)),
        vals_of(es.remove(i)) == vals_of(es).remove(es[i].key@),
        exps_of(es.remove(i)) == exps_of(es).remove(es[i].key@),
    decreases es,
{
    let k = es[i].key@;
    let es2 = es.remove(i);
    assert(wf_entries(es2)) by {
        assert(forall|a: int|
            0 <= a < es2.len() ==> es2[a] == (if a < i {
                es[a]
            } else {
                es[a + 1]
            }));
    }
    if i == es.len() - 1 {
        assert(es2 =~= es.drop_last());
        assert(forall|j: int|
            0 <= j < es.drop_last().len() ==> es.drop_last()[j].key@ != k);
        lemma_absent(es.drop_last(), k);
        assert(vals_of(es2) =~= vals_of(es).remove(k));
        assert(exps_of(es2) =~= exps_of(es).remove(k));
    } else {
        assert(wf_entries(es.drop_last()));
        assert(es.drop_last()[i] == es[i]);
        lemma_remove(es.drop_last(), i);
        assert(es2.drop_last() =~= es.drop_last().remove(i));
        assert(es2.last() == es.last());
        assert(es.last().key@ != k);
        assert(vals_of(es2) =~= vals_of(es).remove(k));
        match es.last().expires_at {
            Some(t) => {
                assert(exps_of(es2) =~= exps_of(es).remove(k));
            }
            None => {
                assert(exps_of(es2) =~= exps_of(es).remove(k));
            }
        }
    }
}

impl Keyspace {
    /// The key-to-value map this store holds.
    pub closed spec fn vals(self) -> Map<Seq<u8>, Seq<u8>> {
        vals_of(self.entries@)
    }

    /// The key-to-expiry map this store holds.
    pub closed spec fn exps(self) -> Map<Seq<u8>, u64> {
        exps_of(self.entries@)
    }

    /// Keys are unique.
    pub closed spec fn wf(self) -> bool {
        wf_entries(self.entries@)
    }

    /// An empty store.
    pub fn new() -> (r: Self)
        ensures
            r.wf(),
            r.vals() == Map::<Seq<u8>, Seq<u8>>::empty(),
            r.exps() == Map::<Seq<u8>, u64>::empty(),
    {
        Keyspace { entries: Vec::new() }
    }

    fn find(&self, key: &Vec<u8>) -> (r: Option<usize>)
        ensures
            match r {
                Some(i) => i < self.entries@.len() && self.entries@[i as int].key@ == key@,
                None => forall|i: int|
                    0 <= i < self.entries@.len() ==> self.entries@[i].key@ != key@,
            },
    {
        let mut i: usize = 0;
        while i < self.entries.len()
            invariant
                0 <= i <= self.entries@.len(),
                forall|j: int| 0 <= j < i ==> self.entries@[j].key@ != key@,
            decreases self.entries@.len() - i,
        {
            if bytes_eq(&self.entries[i].key, key) {
                return Some(i);
            }
            i += 1;
        }
        None
    }
}

/// Whether `k` carries an expiry instant strictly before `now`.
pub open spec fn spec_expired(exps: Map<Seq<u8>, u64>, k: Seq<u8>, now: u64) -> bool {
    exps.contains_key(k) && exps[k] < now
}

/// What a read returns: nothing for an expired or absent key, else the value.
pub open spec fn spec_get_result(
    vals: Map<Seq<u8>, Seq<u8>>,
    exps: Map<Seq<u8>, u64>,
    k: Seq<u8>,
    now: u64,
) -> Option<Seq<u8>> {
    if spec_expired(exps, k, now) {
        None
    } else if vals.contains_key(k) {
        Some(vals[k])
    } else {
        None
    }
}

/// The value map after a read: an expired key is deleted.
pub open spec fn spec_get_vals(
    vals: Map<Seq<u8>, Seq<u8>>,
    exps: Map<Seq<u8>, u64>,
    k: Seq<u8>,
    now: u64,
) -> Map<Seq<u8>, Seq<u8>> {
    if spec_expired(exps, k, now) {
        vals.remove(k)
    } else {
        vals
    }
}

/// The expiry map after a read: an expired key is deleted.
pub open spec fn spec_get_exps(
    exps: Map<Seq<u8>, u64>,
    k: Seq<u8>,
    now: u64,
) -> Map<Seq<u8>, u64> {
    if spec_expired(exps, k, now) {
        exps.remove(k)
    } else {
        exps
    }
}

/// The value map after a write: insert or overwrite.
pub open spec fn spec_set_vals(
    vals: Map<Seq<u8>, Seq<u8>>,
    k: Seq<u8>,
    v: Seq<u8>,
) -> Map<Seq<u8>, Seq<u8>> {
    vals.insert(k, v)
}

/// The expiry map after a write: overwritten when an expiry is given,
/// otherwise left untouched, so a write without expiry keeps a key's old
/// expiry in place.
pub open spec fn spec_set_exps(
    exps: Map<Seq<u8>, u64>,
    k: Seq<u8>,
    e: Option<u64>,
) -> Map<Seq<u8>, u64> {
    match e {
        Some(t) => exps.insert(k, t),
        None => exps,
    }
}

impl Keyspace {
    /// Reads `key` at clock instant `now`: an entry whose expiry has passed
    /// is deleted from both maps and reads as absent.
    pub fn get(&mut self, key: &Vec<u8>, now: u64) -> (r: Option<Vec<u8>>)
        requires
            old(self).wf(),
        ensures
            final(self).wf(),
            final(self).vals() == spec_get_vals(old(self).vals(), old(self).exps(), key@, now),
            final(self).exps() == spec_get_exps(old(self).exps(), key@, now),
            match r {
                Some(v) => spec_get_result(old(self).vals(), old(self).exps(), key@, now)
                    == Some(v@),
                None => spec_get_result(old(self).vals(), old(self).exps(), key@, now) is None,
            },
    {
        match self.find(key) {
            Some(i) => {
                proof {
                    lemma_entry_maps(self.entries@, i as int);
                }
                let expired = match self.entries[i].expires_at {
                    Some(t) => t < now,
                    None => false,
                };
                if expired {
                    proof {
                        lemma_remove(self.entries@, i as int);
                    }
                    self.entries.remove(i);
                    None
                } else {
                    let v = copy_range(&self.entries[i].value, 0, self.entries[i].value.len());
                    assert(v@ =~= old(self).vals()[key@]);
                    Some(v)
                }
            }
            None => {
                proof {
                    lemma_absent(self.entries@, key@);
                }
                None
            }
        }
    }

    /// Reads `key` without touching expiries (the config map is read this
    /// way; its entries never expire).
    pub fn lookup(&self, key: &Vec<u8>) -> (r: Option<Vec<u8>>)
        requires
            self.wf(),
        ensures
            match r {
                Some(v) => self.vals().contains_key(key@) && self.vals()[key@] == v@,
                None => !self.vals().contains_key(key@),
            },
    {
        match self.find(key) {
            Some(i) => {
                proof {
                    lemma_entry_maps(self.entries@, i as int);
                }
                let v = copy_range(&self.entries[i].value, 0, self.entries[i].value.len());
                assert(v@ =~= self.vals()[key@]);
                Some(v)
            }
            None => {
                proof {
                    lemma_absent(self.entries@, key@);
                }
                None
            }
        }
    }

    /// Writes `key`: the value is inserted or overwritten; the expiry is
    /// overwritten only when one is given, else a previous expiry stays.
    pub fn set(&mut self, key: &Vec<u8>, value: Vec<u8>, expiry: Option<u64>)
        requires
            old(self).wf(),
        ensures
            final(self).wf(),
            final(self).vals() == spec_set_vals(old(self).vals(), key@, value@),
            final(self).exps() == spec_set_exps(old(self).exps(), key@, expiry),
    {
        let k = copy_range(key, 0, key.len());
        assert(k@ =~= key@);
        match self.find(key) {
            Some(i) => {
                proof {
                    lemma_entry_maps(self.entries@, i as int);
                }
                let kept = match expiry {
                    Some(t) => Some(t),
                    None => self.entries[i].expires_at,
                };
                let e2 = Entry { key: k, value, expires_at: kept };
                proof {
                    lemma_update(self.entries@, i as int, e2);
                }
                let ghost old_entries = self.entries@;
                let ghost old_exps = exps_of(old_entries);
                let ghost old_expiry = self.entries@[i as int].expires_at;
                self.entries[i] = e2;
                proof {
                    if expiry is None {
                        match old_expiry {
                            Some(t) => {
                                assert(old_exps.contains_key(key@) && old_exps[key@] == t);
                                assert(old_exps.insert(key@, t) =~= old_exps);
                            }
                            None => {
                                assert(!old_exps.contains_key(key@));
                                assert(old_exps.remove(key@) =~= old_exps);
                            }
                        }
                    }
                }
            }
            None => {
                let e2 = Entry { key: k, value, expires_at: expiry };
                let ghost old_entries = self.entries@;
                self.entries.push(e2);
                proof {
                    assert(self.entries@.drop_last() =~= old_entries);
                    assert(self.entries@.last() == e2);
                    lemma_absent(old_entries, key@);
                    assert(wf_entries(self.entries@)) by {
                        assert(forall|a: int, b: int|
                            0 <= a < b < self.entries@.len() && b < old_entries.len()
                                ==> self.entries@[a].key@ != self.entries@[b].key@);
                        assert(forall|a: int|
                            0 <= a < old_entries.len() ==> self.entries@[a].key@ != e2.key@);
                    }
                    if expiry is None {
                        assert(exps_of(self.entries@) =~= spec_set_exps(
                            exps_of(old_entries),
                            key@,
                            expiry,
                        ));
                    }
                }
            }
        }
    }

    /// All current keys, in insertion order; an expired key that has not
    /// been read again may still appear.
    pub fn keys(&self) -> (r: Vec<Vec<u8>>)
        requires
            self.wf(),
        ensures
            forall|i: int| 0 <= i < r@.len() ==> self.vals().contains_key(#[trigger] r@[i]@),
            forall|k: Seq<u8>|
                self.vals().contains_key(k) ==> exists|i: int| 0 <= i < r@.len() && r@[i]@ == k,
            forall|i: int, j: int| 0 <= i < j < r@.len() ==> r@[i]@ != r@[j]@,
    {
        let mut out: Vec<Vec<u8>> = Vec::new();
        let mut i: usize = 0;
        while i < self.entries.len()
            invariant
                self.wf(),
                0 <= i <= self.entries@.len(),
                out@.len() == i,
                forall|j: int| 0 <= j < i ==> out@[j]@ == self.entries@[j].key@,
            decreases self.entries@.len() - i,
        {
            let k = copy_range(&self.entries[i].key, 0, self.entries[i].key.len());
            out.push(k);
            i += 1;
        }
        proof {
            assert forall|j: int| 0 <= j < out@.len() implies self.vals().contains_key(
                out@[j]@,
            ) by {
                lemma_entry_maps(self.entries@, j);
            }
            assert forall|k: Seq<u8>| self.vals().contains_key(k) implies exists|j: int|
                0 <= j < out@.len() && out@[j]@ == k by {
                if forall|j: int| 0 <= j < self.entries@.len() ==> self.entries@[j].key@ != k {
                    lemma_absent(self.entries@, k);
                    assert(false);
                }
                let j = choose|j: int|
                    0 <= j < self.entries@.len() && self.entries@[j].key@ == k;
                assert(out@[j]@ == k);
            }
        }
        out
    }
}

/// Every key in the expiry map also has a value: the expiry map's domain
/// is contained in the value map's domain.
pub proof fn lemma_expiry_implies_value(ks: Keyspace, k: Seq<u8>)
    requires
        ks.exps().contains_key(k),
    ensures
        ks.vals().contains_key(k),
{
    lemma_exps_dom_subset(ks.entries@, k);
}

proof fn lemma_exps_dom_subset(es: Seq<Entry>, k: Seq<u8>)
    requires
        exps_of(es).contains_key(k),
    ensures
        vals_of(es).contains_key(k),
    decreases es,
{
    if es.len() > 0 {
        match es.last().expires_at {
            Some(t) => {
                if k != es.last().key@ {
                    lemma_exps_dom_subset(es.drop_last(), k);
                }
            }
            None => {
                if k != es.last().key@ {
                    lemma_exps_dom_subset(es.drop_last(), k);
                }
            }
        }
    }
}

/// Writing a key without expiry and reading it back yields the value just
/// written, provided the key did not already carry an expiry instant that
/// lies before the read's clock instant (a stale expiry left behind by an
/// earlier write would delete the fresh value on read).
pub proof fn lemma_get_after_set(
    vals: Map<Seq<u8>, Seq<u8>>,
    exps: Map<Seq<u8>, u64>,
    k: Seq<u8>,
    v: Seq<u8>,
    now: u64,
)
    requires
        !spec_expired(exps, k, now),
    ensures
        spec_get_result(spec_set_vals(vals, k, v), spec_set_exps(exps, k, None), k, now)
            == Some(v),
{
}

/// Writing a key with an expiry already in the past and reading it back
/// yields nothing, and afterwards the key is absent from both maps.
pub proof fn lemma_get_after_set_expired(
    vals: Map<Seq<u8>, Seq<u8>>,
    exps: Map<Seq<u8>, u64>,
    k: Seq<u8>,
    v: Seq<u8>,
    e: u64,
    now: u64,
)
    requires
        e < now,
    ensures
        ({
            let vals2 = spec_set_vals(vals, k, v);
            let exps2 = spec_set_exps(exps, k, Some(e));
            spec_get_result(vals2, exps2, k, now) is None
                && !spec_get_vals(vals2, exps2, k, now).contains_key(k)
                && !spec_get_exps(exps2, k, now).contains_key(k)
        }),
{
}

} // verus!
