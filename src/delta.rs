//! A delta: the rows one transaction inserts and deletes, and the ordered
//! collections in which a table keeps its deltas.

use ds_ext::{OrdHashMap, OrdHashSet};
use vstd::prelude::*;

use crate::model::{apply_delta, ascending, DeltaView, IdView, Rows};
use crate::schema::Range;
use crate::value::{values_view, Value};
use crate::version::{key_of, restrict_range, Version};

verus! {

/// The rows one transaction inserts, and the rows it deletes.
#[derive(Debug)]
pub struct Delta {
    inserts: Version,
    deletes: Version,
}

impl View for Delta {
    type V = DeltaView;

    closed spec fn view(&self) -> DeltaView {
        (self.inserts@, self.deletes@)
    }
}

impl Delta {
    pub closed spec fn wf(&self) -> bool {
        &&& self.inserts.wf()
        &&& self.deletes.wf()
        &&& self.deletes.key_len() == self.inserts.key_len()
    }

    pub closed spec fn key_len(&self) -> nat {
        self.inserts.key_len()
    }

    /// A delta that changes nothing.
    pub fn create(key_len: usize) -> (r: Delta)
        ensures
            r.wf(),
            r.key_len() == key_len,
            r@.0 == Rows::empty(),
            r@.1 == Rows::empty(),
    {
        Delta { inserts: Version::create(key_len), deletes: Version::create(key_len) }
    }

    /// A delta that inserts the rows of `inserts`.
    pub fn from_inserts(inserts: Version) -> (r: Delta)
        requires
            inserts.wf(),
        ensures
            r.wf(),
            r.key_len() == inserts.key_len(),
            r@.0 == inserts@,
            r@.1 == Rows::empty(),
    {
        let deletes = Version::create(inserts.key_len_exec());
        Delta { inserts, deletes }
    }

    /// The delta that inserts the rows of `inserts` and deletes those of
    /// `deletes`.
    pub fn from_parts(inserts: Version, deletes: Version) -> (r: Delta)
        requires
            inserts.wf(),
            deletes.wf(),
            inserts.key_len() == deletes.key_len(),
        ensures
            r.wf(),
            r.key_len() == inserts.key_len(),
            r@ == (inserts@, deletes@),
    {
        Delta { inserts, deletes }
    }

    /// Apply this delta to `rows`, within `range`: rows it inserts replace,
    /// then rows it deletes are removed.
    pub fn merge_into(&self, rows: Version, range: &Range) -> (r: Version)
        requires
            self.wf(),
            rows.wf(),
            rows.key_len() == self.key_len(),
        ensures
            r.wf(),
            r.key_len() == rows.key_len(),
            r@ == apply_delta(
                rows@,
                (restrict_range(self@.0, range@), restrict_range(self@.1, range@)),
            ),
    {
        let inserted = self.inserts.slice(range);
        let merged = rows.merge_join(&inserted);
        let deleted = self.deletes.slice(range);
        merged.anti_join(&deleted)
    }

    /// Whether this delta deletes the row under `key`.
    pub fn deletes_key(&self, key: &Vec<Value>) -> (r: bool)
        requires
            self.wf(),
            key.len() == self.key_len(),
        ensures
            r == self@.1.contains_key(values_view(key@)),
    {
        self.deletes.contains(key)
    }

    /// The row this delta inserts under `key`, if any.
    pub fn inserted_row(&self, key: &Vec<Value>) -> (r: Option<Vec<Value>>)
        requires
            self.wf(),
            key.len() == self.key_len(),
        ensures
            r is Some <==> self@.0.contains_key(values_view(key@)),
            r matches Some(row) ==> values_view(row@) == self@.0[values_view(key@)],
            r matches Some(row) ==> row.len() >= self.key_len() && key_of(
                values_view(row@),
                self.key_len(),
            ) == values_view(key@),
    {
        self.inserts.get_row(key)
    }

    /// Insert `values` under `key`, withdrawing any deletion of `key`.
    pub fn upsert(&mut self, key: Vec<Value>, values: Vec<Value>)
        requires
            old(self).wf(),
            key.len() == old(self).key_len(),
        ensures
            final(self).wf(),
            final(self).key_len() == old(self).key_len(),
            final(self)@ == (
                old(self)@.0.insert(values_view(key@), values_view(key@) + values_view(values@)),
                old(self)@.1.remove(values_view(key@)),
            ),
    {
        self.deletes.delete_row(&key);
        self.inserts.upsert(key, values);
    }

    /// Delete the row under `key`, recording `values` as what it held, and
    /// withdraw any insertion of `key`.
    pub fn delete(&mut self, key: Vec<Value>, values: Vec<Value>)
        requires
            old(self).wf(),
            key.len() == old(self).key_len(),
        ensures
            final(self).wf(),
            final(self).key_len() == old(self).key_len(),
            final(self)@ == (
                old(self)@.0.remove(values_view(key@)),
                old(self)@.1.insert(values_view(key@), values_view(key@) + values_view(values@)),
            ),
    {
        self.inserts.delete_row(&key);
        self.deletes.upsert(key, values);
    }

    /// Fold this delta into `canon`: its inserts, then its deletes.
    pub fn fold_into(&self, canon: &mut Version)
        requires
            self.wf(),
            old(canon).wf(),
            old(canon).key_len() == self.key_len(),
        ensures
            final(canon).wf(),
            final(canon).key_len() == old(canon).key_len(),
            final(canon)@ == apply_delta(old(canon)@, self@),
    {
        canon.merge(&self.inserts);
        canon.delete_all(&self.deletes);
    }
}

#[verifier::external_type_specification]
#[verifier::external_body]
#[verifier::reject_recursive_types(K)]
#[verifier::reject_recursive_types(V)]
pub struct ExOrdHashMap<K, V>(OrdHashMap<K, V>);

#[verifier::external_type_specification]
#[verifier::external_body]
#[verifier::reject_recursive_types(T)]
pub struct ExOrdHashSet<T>(OrdHashSet<T>);

/// An ordered map of deltas by transaction.
pub type DeltaMap = OrdHashMap<IdView, Delta>;

/// Deltas by transaction.
pub type DeltaEntries = Map<IdView, Delta>;

/// An ordered set of transactions.
pub type TxnSet = OrdHashSet<IdView>;

/// The deltas that an ordered map holds, by transaction.
pub uninterp spec fn delta_entries(m: DeltaMap) -> DeltaEntries;

/// The transactions that an ordered set holds.
pub uninterp spec fn txn_ids(s: TxnSet) -> Set<IdView>;

/// Relies on `OrdHashMap::new`: an empty map.
#[verifier::external_body]
pub(crate) fn delta_map_new() -> (r: DeltaMap)
    ensures
        delta_entries(r) == DeltaEntries::empty(),
{
    OrdHashMap::new()
}

/// Relies on `OrdHashMap::get`: the value under `id`, if any.
#[verifier::external_body]
pub(crate) fn delta_map_get<'a>(m: &'a DeltaMap, id: &IdView) -> (r: Option<&'a Delta>)
    ensures
        r is Some <==> delta_entries(*m).contains_key(*id),
        r matches Some(d) ==> *d == delta_entries(*m)[*id],
{
    m.get(id)
}

/// Relies on `OrdHashMap::insert`: `value` is stored under `id`, replacing
/// any value stored there.
#[verifier::external_body]
pub(crate) fn delta_map_insert(m: &mut DeltaMap, id: IdView, value: Delta)
    ensures
        delta_entries(*final(m)) == delta_entries(*old(m)).insert(id, value),
{
    m.insert(id, value);
}

/// Relies on `OrdHashMap::remove`: the value under `id` leaves the map and is
/// returned, if any.
#[verifier::external_body]
pub(crate) fn delta_map_remove(m: &mut DeltaMap, id: &IdView) -> (r: Option<Delta>)
    ensures
        delta_entries(*final(m)) == delta_entries(*old(m)).remove(*id),
        r is Some <==> delta_entries(*old(m)).contains_key(*id),
        r matches Some(d) ==> d == delta_entries(*old(m))[*id],
{
    m.remove(id)
}

/// Relies on `OrdHashMap::keys`: each key once, in ascending order.
#[verifier::external_body]
pub(crate) fn delta_map_keys(m: &DeltaMap) -> (r: Vec<IdView>)
    ensures
        ascending(r@),
        forall|id: IdView| r@.contains(id) <==> delta_entries(*m).contains_key(id),
{
    m.keys().copied().collect()
}

/// Relies on `OrdHashSet::new`: an empty set.
#[verifier::external_body]
pub(crate) fn txn_set_new() -> (r: TxnSet)
    ensures
        txn_ids(r) == Set::<IdView>::empty(),
{
    OrdHashSet::new()
}

/// Relies on `OrdHashSet::insert`: `id` joins the set; the result tells
/// whether it was absent.
#[verifier::external_body]
pub(crate) fn txn_set_insert(s: &mut TxnSet, id: IdView) -> (r: bool)
    ensures
        txn_ids(*final(s)) == txn_ids(*old(s)).insert(id),
        r == !txn_ids(*old(s)).contains(id),
{
    s.insert(id)
}

/// Relies on `OrdHashSet::contains`.
#[verifier::external_body]
pub(crate) fn txn_set_contains(s: &TxnSet, id: &IdView) -> (r: bool)
    ensures
        r == txn_ids(*s).contains(*id),
{
    s.contains(id)
}

/// Relies on `OrdHashSet::remove`: `id` leaves the set.
#[verifier::external_body]
pub(crate) fn txn_set_remove(s: &mut TxnSet, id: &IdView) -> (r: bool)
    ensures
        txn_ids(*final(s)) == txn_ids(*old(s)).remove(*id),
        r == txn_ids(*old(s)).contains(*id),
{
    s.remove(id)
}

/// Relies on `OrdHashSet::iter`: each member once, in ascending order.
#[verifier::external_body]
pub(crate) fn txn_set_members(s: &TxnSet) -> (r: Vec<IdView>)
    ensures
        ascending(r@),
        forall|id: IdView| r@.contains(id) <==> txn_ids(*s).contains(id),
{
    s.iter().copied().collect()
}

} // verus!
