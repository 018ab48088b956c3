//! A transactional table: a canonical version, the committed deltas not yet
//! folded into it, the pending delta of each open transaction, and the range
//! reservations that keep concurrent transactions apart.

use vstd::prelude::*;

use crate::delta::{
    delta_entries, delta_map_get, delta_map_insert, delta_map_keys, delta_map_new,
    delta_map_remove, txn_ids, txn_set_contains, txn_set_insert, txn_set_members, txn_set_new,
    txn_set_remove, Delta, DeltaMap, TxnSet,
};
use crate::error::{bad_request, conflict, Code, TCResult};
use crate::model::{
    lemma_prefix_push, apply_delta, ascending, ascending_ids, fold_layers, ids_upto, layers_of, lemma_ascending_ids,
    lookup, lemma_ascending_ids_finite, lemma_ascending_len, DeltaView, IdView, KeyView, RowView, Rows,
};
use crate::schema::{range_contains, Range, TableSchema};
use crate::semaphore::{outlives, read_conflicts, write_conflicts, ReservationView, Semaphore};
use crate::txn::{lemma_names_txn_unique, names_txn, txn_rank, TxnId};
use crate::value::{clone_values, values_view, Value, ValueView};
use crate::version::{
    key_of, key_prefix, lemma_rows_map, lemma_rows_map_len, restrict_range, rows_map, rows_view, sorted_rows,
    values_after, Version,
};

verus! {

/// The registry of a table's deltas.
struct State {
    commits: TxnSet,
    deltas: DeltaMap,
    pending: DeltaMap,
    finalized: Option<TxnId>,
}

/// The view of an optional row.
pub open spec fn opt_row_view(r: Option<Vec<Value>>) -> Option<RowView> {
    match r {
        Some(row) => Some(values_view(row@)),
        None => None,
    }
}

/// Whether the transaction `t` lies at or before the finalized one.
pub open spec fn at_or_before(t: IdView, finalized: Option<IdView>) -> bool {
    finalized matches Some(f) && txn_rank(t) <= txn_rank(f)
}

/// The delta of `t` in `pending`, or an empty one.
pub open spec fn delta_or_empty(pending: Map<IdView, Delta>, t: IdView) -> DeltaView {
    if pending.contains_key(t) {
        pending[t]@
    } else {
        (Rows::empty(), Rows::empty())
    }
}

/// A relational table whose rows are versioned by transaction.
pub struct TableFile {
    schema: TableSchema,
    canon: Version,
    state: State,
    semaphore: Semaphore,
}

impl TableFile {
    pub closed spec fn spec_schema(&self) -> TableSchema {
        self.schema
    }

    /// The rows folded into the canonical version.
    pub closed spec fn canon_rows(&self) -> Rows {
        self.canon@
    }

    /// The committed deltas not yet folded into the canonical version.
    pub closed spec fn committed(&self) -> Map<IdView, Delta> {
        delta_entries(self.state.deltas)
    }

    /// The deltas of transactions that are neither committed nor rolled back.
    pub closed spec fn pending(&self) -> Map<IdView, Delta> {
        delta_entries(self.state.pending)
    }

    /// The transactions committed and not yet finalized.
    pub closed spec fn commits(&self) -> Set<IdView> {
        txn_ids(self.state.commits)
    }

    /// The last transaction finalized, if any.
    pub closed spec fn finalized(&self) -> Option<IdView> {
        match self.state.finalized {
            Some(t) => Some(t@),
            None => None,
        }
    }

    /// The reservations of key ranges.
    pub closed spec fn reservations(&self) -> Seq<ReservationView> {
        self.semaphore@
    }

    /// Whether `d` is a well-formed delta of rows of this table.
    pub closed spec fn fits(&self, d: Delta) -> bool {
        d.wf() && d.key_len() == self.schema.key_len()
    }

    /// Whether transaction `t` may hold a pending delta.
    pub open spec fn open_to(&self, t: IdView) -> bool {
        !self.commits().contains(t) && !at_or_before(t, self.finalized())
    }

    /// The invariant, but for the pending deltas.
    pub closed spec fn wf_core(&self) -> bool {
        &&& self.committed().dom().finite()
        &&& self.pending().dom().finite()
        &&& self.canon.wf()
        &&& self.canon.key_len() == self.schema.key_len()
        &&& forall|id: IdView| #[trigger]
            self.committed().contains_key(id) ==> self.fits(self.committed()[id])
                && self.commits().contains(id)
        &&& forall|id: IdView| #[trigger]
            self.commits().contains(id) ==> !at_or_before(id, self.finalized())
    }

    /// A well-formed table holds finitely many deltas.
    pub proof fn lemma_finite(&self)
        requires
            self.wf(),
        ensures
            self.committed().dom().finite(),
            self.pending().dom().finite(),
    {
    }

    pub open spec fn wf(&self) -> bool {
        &&& self.wf_core()
        &&& forall|id: IdView| #[trigger]
            self.pending().contains_key(id) ==> self.fits(self.pending()[id]) && self.open_to(id)
    }

    /// The committed layers visible at `t`, oldest first.
    pub open spec fn committed_layers(&self, t: IdView) -> Seq<DeltaView> {
        layers_of(ascending_ids(ids_upto(self.committed().dom(), t)), self.committed())
    }

    /// The layers visible at `t`, oldest first: the committed ones, then the
    /// pending delta of `t`.
    pub open spec fn layers_at(&self, t: IdView) -> Seq<DeltaView> {
        if self.pending().contains_key(t) {
            self.committed_layers(t).push(self.pending()[t]@)
        } else {
            self.committed_layers(t)
        }
    }

    /// The rows that transaction `t` sees.
    pub open spec fn snapshot(&self, t: IdView) -> Rows {
        fold_layers(self.canon_rows(), self.layers_at(t))
    }

    /// Whether `other` holds the same rows and deltas as `self`.
    pub open spec fn same_data(&self, other: &TableFile) -> bool {
        &&& other.spec_schema() == self.spec_schema()
        &&& other.canon_rows() == self.canon_rows()
        &&& other.committed() == self.committed()
        &&& other.pending() == self.pending()
        &&& other.commits() == self.commits()
        &&& other.finalized() == self.finalized()
    }

    /// Whether a transaction `t` that has no pending delta may not open one.
    pub open spec fn closed_to(&self, t: IdView) -> bool {
        !self.pending().contains_key(t) && (self.commits().contains(t) || at_or_before(
            t,
            self.finalized(),
        ))
    }

    /// An empty table with the given schema.
    pub fn create(schema: TableSchema) -> (r: TableFile)
        ensures
            r.wf(),
            r.spec_schema() == schema,
            r.canon_rows() == Rows::empty(),
            r.committed() == Map::<IdView, Delta>::empty(),
            r.pending() == Map::<IdView, Delta>::empty(),
            r.commits() == Set::<IdView>::empty(),
            r.finalized() is None,
            r.reservations() == Seq::<ReservationView>::empty(),
    {
        let canon = Version::create(schema.key.len());
        TableFile {
            schema,
            canon,
            state: State {
                commits: txn_set_new(),
                deltas: delta_map_new(),
                pending: delta_map_new(),
                finalized: None,
            },
            semaphore: Semaphore::new(),
        }
    }

    /// The last transaction finalized, if any.
    pub fn finalized_id(&self) -> (r: Option<TxnId>)
        ensures
            match r {
                Some(t) => self.finalized() == Some(t@),
                None => self.finalized() is None,
            },
    {
        self.state.finalized
    }

    /// Whether `t` is committed and not yet finalized.
    pub fn is_committed(&self, t: &TxnId) -> (r: bool)
        ensures
            r == self.commits().contains(t@),
    {
        txn_set_contains(&self.state.commits, &t.key())
    }

    pub fn schema(&self) -> (r: &TableSchema)
        ensures
            *r == self.spec_schema(),
    {
        &self.schema
    }

    /// Whether `t` lies at or before the finalized transaction.
    fn is_finalized(&self, t: &TxnId) -> (r: bool)
        ensures
            r == at_or_before(t@, self.finalized()),
    {
        match &self.state.finalized {
            Some(f) => !f.precedes(t),
            None => false,
        }
    }

    /// Make sure that `t` has a pending delta, creating an empty one if need
    /// be; a `Conflict` error where `t` is committed or finalized.
    fn pending_version(&mut self, t: &TxnId) -> (r: TCResult<()>)
        requires
            old(self).wf(),
        ensures
            final(self).wf(),
            final(self).reservations() == old(self).reservations(),
            r is Err <==> old(self).closed_to(t@),
            r matches Err(e) ==> e.code() == Code::Conflict && final(self).same_data(old(self)),
            r is Ok ==> {
                &&& final(self).pending().contains_key(t@)
                &&& final(self).pending()[t@]@ == delta_or_empty(old(self).pending(), t@)
                &&& final(self).pending() == old(self).pending().insert(
                    t@,
                    final(self).pending()[t@],
                )
                &&& final(self).spec_schema() == old(self).spec_schema()
                &&& final(self).canon_rows() == old(self).canon_rows()
                &&& final(self).committed() == old(self).committed()
                &&& final(self).commits() == old(self).commits()
                &&& final(self).finalized() == old(self).finalized()
            },
    {
        let id = t.key();
        if delta_map_get(&self.state.pending, &id).is_some() {
            proof {
                assert(self.pending().insert(t@, self.pending()[t@]) =~= self.pending());
            }
            return Ok(());
        }
        if txn_set_contains(&self.state.commits, &id) || self.is_finalized(t) {
            return Err(conflict());
        }
        let delta = Delta::create(self.schema.key.len());
        let ghost before = self.pending();
        let ghost committed = self.committed();
        let ghost commits = self.commits();
        delta_map_insert(&mut self.state.pending, id, delta);
        proof {
            assert(self.committed() == committed);
            assert(self.commits() == commits);
            assert forall|i: IdView| #[trigger] self.commits().contains(i) implies !at_or_before(
                i,
                self.finalized(),
            ) by {
                assert(commits.contains(i));
            }
            assert forall|i: IdView| #[trigger] self.pending().contains_key(i) implies self.fits(
                self.pending()[i],
            ) && self.open_to(i) by {
                if i != t@ {
                    assert(before.contains_key(i));
                }
            }
            assert forall|i: IdView| #[trigger] self.committed().contains_key(i) implies self.fits(
                self.committed()[i],
            ) && self.commits().contains(i) by {
                assert(committed.contains_key(i));
            }
            assert(self.wf());
        }
        Ok(())
    }
}


/// The invariant holds of a table with the same rows and deltas as one of
/// which it holds.
proof fn lemma_wf_frame(a: TableFile, b: TableFile)
    requires
        a.wf(),
        a.schema == b.schema,
        a.canon == b.canon,
        a.state == b.state,
    ensures
        b.wf(),
        b.same_data(&a),
{
    assert forall|i: IdView| #[trigger] b.committed().contains_key(i) implies b.fits(
        b.committed()[i],
    ) && b.commits().contains(i) by {
        assert(a.committed().contains_key(i));
    }
    assert forall|i: IdView| #[trigger] b.commits().contains(i) implies !at_or_before(
        i,
        b.finalized(),
    ) by {
        assert(a.commits().contains(i));
    }
    assert forall|i: IdView| #[trigger] b.pending().contains_key(i) implies b.fits(b.pending()[i])
        && b.open_to(i) by {
        assert(a.pending().contains_key(i));
    }
}

/// Restricting to a range commutes with applying a layer.
proof fn lemma_restrict_apply(m: Rows, d: DeltaView, range: Seq<ValueView>)
    ensures
        restrict_range(apply_delta(m, d), range) == apply_delta(
            restrict_range(m, range),
            (restrict_range(d.0, range), restrict_range(d.1, range)),
        ),
{
    assert(restrict_range(apply_delta(m, d), range) =~= apply_delta(
        restrict_range(m, range),
        (restrict_range(d.0, range), restrict_range(d.1, range)),
    ));
}

impl TableFile {
    /// The committed transactions visible at `t`, in ascending order.
    fn visible_ids(&self, t: &TxnId) -> (r: Vec<IdView>)
        requires
            self.wf(),
        ensures
            r@ == ascending_ids(ids_upto(self.committed().dom(), t@)),
            ascending(r@),
            forall|id: IdView| r@.contains(id) <==> ids_upto(self.committed().dom(), t@).contains(id),
            forall|i: int| 0 <= i < r@.len() ==> self.committed().contains_key(#[trigger] r@[i]),
    {
        let ids = delta_map_keys(&self.state.deltas);
        let mut out: Vec<IdView> = Vec::new();
        let mut i: usize = 0;
        while i < ids.len() && !t.precedes(&TxnId::from_key(ids[i]))
            invariant
                i <= ids.len(),
                out@ == ids@.subrange(0, i as int),
                forall|j: int| 0 <= j < i ==> txn_rank(#[trigger] ids@[j]) <= txn_rank(t@),
            decreases ids.len() - i,
        {
            out.push(ids[i]);
            i = i + 1;
        }
        proof {
            let s = ids_upto(self.committed().dom(), t@);
            assert(ascending(out@));
            assert forall|id: IdView| out@.contains(id) <==> s.contains(id) by {
                if out@.contains(id) {
                    let j = choose|j: int| 0 <= j < out@.len() && out@[j] == id;
                    assert(ids@[j] == id);
                    assert(ids@.contains(id));
                }
                if s.contains(id) {
                    assert(ids@.contains(id));
                    let j = choose|j: int| 0 <= j < ids@.len() && ids@[j] == id;
                    if j >= i {
                        if j > i {
                            assert(txn_rank(ids@[i as int]) < txn_rank(ids@[j]));
                        }
                        assert(false);
                    }
                    assert(out@[j] == id);
                }
            }
            lemma_ascending_ids(out@, s);
            assert forall|j: int| 0 <= j < out@.len() implies self.committed().contains_key(
                #[trigger] out@[j],
            ) by {
                assert(ids@[j] == out@[j]);
                assert(ids@.contains(out@[j]));
            }
        }
        out
    }

    /// The rows in `range` that transaction `t` sees, without reserving them.
    fn into_rows(&self, t: &TxnId, range: &Range) -> (r: Version)
        requires
            self.wf(),
        ensures
            r.wf(),
            r.key_len() == self.spec_schema().key_len(),
            r@ == restrict_range(self.snapshot(t@), range@),
    {
        let ids = self.visible_ids(t);
        let ghost committed = self.committed();
        let mut rows = self.canon.slice(range);
        let mut i: usize = 0;
        while i < ids.len()
            invariant
                self.wf(),
                committed == self.committed(),
                i <= ids.len(),
                forall|j: int| 0 <= j < ids@.len() ==> committed.contains_key(#[trigger] ids@[j]),
                rows.wf(),
                rows.key_len() == self.schema.key_len(),
                rows@ == restrict_range(
                    fold_layers(self.canon@, layers_of(ids@.subrange(0, i as int), committed)),
                    range@,
                ),
            decreases ids.len() - i,
        {
            let id = ids[i];
            let d = delta_map_get(&self.state.deltas, &id).unwrap();
            let ghost before = rows@;
            rows = d.merge_into(rows, range);
            proof {
                let prev = layers_of(ids@.subrange(0, i as int), committed);
                let next = layers_of(ids@.subrange(0, i + 1), committed);
                assert(next.drop_last() =~= prev);
                assert(next.last() == committed[id]@);
                lemma_restrict_apply(fold_layers(self.canon@, prev), committed[id]@, range@);
            }
            i = i + 1;
        }
        assert(ids@.subrange(0, i as int) =~= ids@);
        let id = t.key();
        match delta_map_get(&self.state.pending, &id) {
            Some(p) => {
                let ghost committed_rows = fold_layers(self.canon@, self.committed_layers(t@));
                assert(self.pending().contains_key(t@));
                rows = p.merge_into(rows, range);
                proof {
                    let layers = self.layers_at(t@);
                    assert(layers.drop_last() =~= self.committed_layers(t@));
                    lemma_restrict_apply(committed_rows, self.pending()[t@]@, range@);
                }
            },
            None => {},
        }
        rows
    }

    /// The row under `key` that transaction `t` sees, if any: found in the
    /// newest layer that mentions `key`. A `BadRequest` error where `key`
    /// does not match the schema, and a `Conflict` error where a later
    /// transaction has reserved `key` for writing.
    pub fn read(&mut self, txn_id: TxnId, key: Vec<Value>) -> (r: TCResult<Option<Vec<Value>>>)
        requires
            old(self).wf(),
        ensures
            final(self).wf(),
            final(self).same_data(old(self)),
            !old(self).spec_schema().valid_key(values_view(key@)) ==> (r matches Err(e)
                && e.code() == Code::BadRequest && final(self).reservations() == old(
                self,
            ).reservations()),
            old(self).spec_schema().valid_key(values_view(key@)) && read_conflicts(
                old(self).reservations(),
                txn_id@,
                values_view(key@),
            ) ==> (r matches Err(e) && e.code() == Code::Conflict && final(self).reservations()
                == old(self).reservations()),
            old(self).spec_schema().valid_key(values_view(key@)) && !read_conflicts(
                old(self).reservations(),
                txn_id@,
                values_view(key@),
            ) ==> (r matches Ok(row) && opt_row_view(row) == lookup(
                old(self).canon_rows(),
                old(self).layers_at(txn_id@),
                values_view(key@),
            ) && final(self).reservations() == old(self).reservations().push(
                (txn_id@, values_view(key@), false),
            )),
    {
        let ghost key0 = values_view(key@);
        let key = match self.schema.validate_key(key) {
            Ok(key) => key,
            Err(e) => return Err(e),
        };
        let range = self.schema.range_from_key(&key);
        let ghost before = *self;
        let granted = self.semaphore.read(txn_id, range);
        proof {
            assert(self.state == before.state);
            lemma_wf_frame(before, *self);
        }
        match granted {
            Ok(_) => {},
            Err(e) => return Err(e),
        }
        let ghost k = values_view(key@);
        let ghost layers = self.layers_at(txn_id@);
        let id = txn_id.key();
        let ghost committed_layers = self.committed_layers(txn_id@);
        match delta_map_get(&self.state.pending, &id) {
            Some(p) => {
                assert(self.pending().contains_key(id));
                if p.deletes_key(&key) {
                    return Ok(None);
                }
                match p.inserted_row(&key) {
                    Some(row) => {
                        return Ok(Some(row));
                    },
                    None => {},
                }
                assert(layers.drop_last() =~= committed_layers);
            },
            None => {},
        }
        let ids = self.visible_ids(&txn_id);
        Ok(self.lookup_committed(&ids, &key))
    }

    /// The row under `key` as the newest of the committed layers `ids` that
    /// mentions it has it, or as the canonical version has it.
    fn lookup_committed(&self, ids: &Vec<IdView>, key: &Vec<Value>) -> (r: Option<Vec<Value>>)
        requires
            self.wf(),
            key.len() == self.spec_schema().key_len(),
            forall|j: int| 0 <= j < ids@.len() ==> self.committed().contains_key(#[trigger] ids@[j]),
        ensures
            opt_row_view(r) == lookup(self.canon_rows(), layers_of(ids@, self.committed()), values_view(key@)),
            r matches Some(row) ==> row.len() >= self.spec_schema().key_len() && key_of(
                values_view(row@),
                self.spec_schema().key_len(),
            ) == values_view(key@),
    {
        let ghost k = values_view(key@);
        let mut i: usize = ids.len();
        assert(ids@.subrange(0, i as int) =~= ids@);
        while i > 0
            invariant
                self.wf(),
                i <= ids.len(),
                key.len() == self.schema.key_len(),
                k == values_view(key@),
                forall|j: int| 0 <= j < ids@.len() ==> self.committed().contains_key(#[trigger] ids@[j]),
                lookup(self.canon@, layers_of(ids@, self.committed()), k) == lookup(
                    self.canon@,
                    layers_of(ids@.subrange(0, i as int), self.committed()),
                    k,
                ),
            decreases i,
        {
            i = i - 1;
            let id = ids[i];
            let d = delta_map_get(&self.state.deltas, &id).unwrap();
            proof {
                let prev = layers_of(ids@.subrange(0, i + 1), self.committed());
                assert(prev.drop_last() =~= layers_of(ids@.subrange(0, i as int), self.committed()));
                assert(prev.last() == d@);
            }
            if d.deletes_key(key) {
                return None;
            }
            match d.inserted_row(key) {
                Some(row) => {
                    return Some(row);
                },
                None => {},
            }
        }
        assert(layers_of(ids@.subrange(0, 0), self.committed()) =~= Seq::<DeltaView>::empty());
        self.canon.get_row(key)
    }

    /// Whether `other` differs from `self` in its pending deltas and its
    /// reservations at most.
    pub open spec fn same_but_pending(&self, other: &TableFile) -> bool {
        &&& other.spec_schema() == self.spec_schema()
        &&& other.canon_rows() == self.canon_rows()
        &&& other.committed() == self.committed()
        &&& other.commits() == self.commits()
        &&& other.finalized() == self.finalized()
    }

    /// Whether `other` is `self` with the pending delta of `t` now `d`.
    pub open spec fn pending_becomes(&self, other: &TableFile, t: IdView, d: DeltaView) -> bool {
        &&& self.same_but_pending(other)
        &&& other.pending().contains_key(t)
        &&& other.pending()[t]@ == d
        &&& other.pending() == self.pending().insert(t, other.pending()[t])
    }

    /// Take the pending delta of `t` out of the table.
    fn take_pending(&mut self, t: &TxnId) -> (d: Delta)
        requires
            old(self).wf(),
            old(self).pending().contains_key(t@),
        ensures
            final(self).wf_core(),
            final(self).same_but_pending(old(self)),
            final(self).reservations() == old(self).reservations(),
            final(self).pending() == old(self).pending().remove(t@),
            forall|id: IdView| #[trigger]
                final(self).pending().contains_key(id) ==> final(self).fits(final(self).pending()[id])
                    && final(self).open_to(id),
            d == old(self).pending()[t@],
            old(self).fits(d),
            old(self).open_to(t@),
    {
        let id = t.key();
        let ghost committed = self.committed();
        let ghost commits = self.commits();
        let ghost pending = self.pending();
        let d = delta_map_remove(&mut self.state.pending, &id).unwrap();
        proof {
            assert(self.committed() == committed);
            assert(self.commits() == commits);
            assert forall|i: IdView| #[trigger] self.pending().contains_key(i) implies self.fits(
                self.pending()[i],
            ) && self.open_to(i) by {
                assert(pending.contains_key(i));
            }
        }
        d
    }

    /// Put `d` back as the pending delta of `t`.
    fn put_pending(&mut self, t: &TxnId, d: Delta)
        requires
            old(self).wf_core(),
            forall|id: IdView| #[trigger]
                old(self).pending().contains_key(id) ==> old(self).fits(old(self).pending()[id])
                    && old(self).open_to(id),
            old(self).fits(d),
            old(self).open_to(t@),
        ensures
            final(self).wf(),
            final(self).same_but_pending(old(self)),
            final(self).reservations() == old(self).reservations(),
            final(self).pending() == old(self).pending().insert(t@, d),
    {
        let id = t.key();
        let ghost committed = self.committed();
        let ghost commits = self.commits();
        let ghost pending = self.pending();
        delta_map_insert(&mut self.state.pending, id, d);
        proof {
            assert(self.committed() == committed);
            assert(self.commits() == commits);
            assert forall|i: IdView| #[trigger] self.pending().contains_key(i) implies self.fits(
                self.pending()[i],
            ) && self.open_to(i) by {
                if i != t@ {
                    assert(pending.contains_key(i));
                }
            }
        }
    }

    /// Insert or replace the row under `key` in the pending delta of `t`,
    /// withdrawing any deletion of `key` there. A `BadRequest` error where
    /// `key` or `values` does not match the schema; a `Conflict` error where
    /// another transaction has reserved `key` for writing, or a later one for
    /// reading, or where `t` is committed or finalized.
    pub fn upsert(&mut self, txn_id: TxnId, key: Vec<Value>, values: Vec<Value>) -> (r: TCResult<()>)
        requires
            old(self).wf(),
        ensures
            final(self).wf(),
            ({
                let k = values_view(key@);
                let v = values_view(values@);
                let valid = old(self).spec_schema().valid_key(k) && old(self).spec_schema().valid_values(v);
                let reserved = old(self).reservations().push((txn_id@, k, true));
                let p = delta_or_empty(old(self).pending(), txn_id@);
                &&& !valid ==> (r matches Err(e) && e.code() == Code::BadRequest && final(self).same_data(old(self))
                    && final(self).reservations() == old(self).reservations())
                &&& valid && at_or_before(txn_id@, old(self).finalized()) ==> (r matches Err(e)
                    && e.code() == Code::Conflict && final(self).same_data(old(self))
                    && final(self).reservations() == old(self).reservations())
                &&& valid && !at_or_before(txn_id@, old(self).finalized()) && write_conflicts(old(self).reservations(), txn_id@, k) ==> (r matches Err(e)
                    && e.code() == Code::Conflict && final(self).same_data(old(self))
                    && final(self).reservations() == old(self).reservations())
                &&& valid && !at_or_before(txn_id@, old(self).finalized()) && !write_conflicts(old(self).reservations(), txn_id@, k) && old(self).closed_to(txn_id@)
                    ==> (r matches Err(e) && e.code() == Code::Conflict && final(self).same_data(old(self))
                    && final(self).reservations() == reserved)
                &&& valid && !at_or_before(txn_id@, old(self).finalized()) && !write_conflicts(old(self).reservations(), txn_id@, k) && !old(self).closed_to(txn_id@)
                    ==> (r is Ok && final(self).reservations() == reserved && old(self).pending_becomes(
                    final(self),
                    txn_id@,
                    (p.0.insert(k, k + v), p.1.remove(k)),
                ))
            }),
    {
        let key = match self.schema.validate_key(key) {
            Ok(key) => key,
            Err(e) => return Err(e),
        };
        let values = match self.schema.validate_values(values) {
            Ok(values) => values,
            Err(e) => return Err(e),
        };
        let range = self.schema.range_from_key(&key);
        if self.is_finalized(&txn_id) {
            return Err(conflict());
        }
        let ghost before = *self;
        let granted = self.semaphore.write(txn_id, range);
        proof {
            assert(self.state == before.state);
            lemma_wf_frame(before, *self);
        }
        match granted {
            Ok(_) => {},
            Err(e) => return Err(e),
        }
        match self.pending_version(&txn_id) {
            Ok(()) => {},
            Err(e) => return Err(e),
        }
        let mut d = self.take_pending(&txn_id);
        d.upsert(key, values);
        self.put_pending(&txn_id, d);
        assert(self.pending() =~= old(self).pending().insert(txn_id@, self.pending()[txn_id@]));
        Ok(())
    }

    /// The row under `key` that `t` sees, where `t` has a pending delta.
    fn visible_row(&self, t: &TxnId, key: &Vec<Value>) -> (r: Option<Vec<Value>>)
        requires
            self.wf(),
            self.pending().contains_key(t@),
            key.len() == self.spec_schema().key_len(),
        ensures
            opt_row_view(r) == lookup(self.canon_rows(), self.layers_at(t@), values_view(key@)),
            r matches Some(row) ==> row.len() >= self.spec_schema().key_len() && key_of(
                values_view(row@),
                self.spec_schema().key_len(),
            ) == values_view(key@),
    {
        let id = t.key();
        let p = delta_map_get(&self.state.pending, &id).unwrap();
        if p.deletes_key(key) {
            return None;
        }
        match p.inserted_row(key) {
            Some(row) => {
                return Some(row);
            },
            None => {},
        }
        let ids = self.visible_ids(t);
        assert(self.layers_at(t@).drop_last() =~= self.committed_layers(t@));
        self.lookup_committed(&ids, key)
    }

    /// Delete the row under `key` as transaction `t` sees it: the pending
    /// delta of `t` withdraws any insertion of `key` and records the row as
    /// deleted. Nothing changes where `t` sees no row there. Errors as
    /// [`TableFile::upsert`] has them.
    pub fn delete(&mut self, txn_id: TxnId, key: Vec<Value>) -> (r: TCResult<()>)
        requires
            old(self).wf(),
        ensures
            final(self).wf(),
            ({
                let k = values_view(key@);
                let valid = old(self).spec_schema().valid_key(k);
                let reserved = old(self).reservations().push((txn_id@, k, true));
                let p = delta_or_empty(old(self).pending(), txn_id@);
                let seen = lookup(old(self).canon_rows(), old(self).committed_layers(txn_id@).push(p), k);
                &&& !valid ==> (r matches Err(e) && e.code() == Code::BadRequest && final(self).same_data(old(self))
                    && final(self).reservations() == old(self).reservations())
                &&& valid && at_or_before(txn_id@, old(self).finalized()) ==> (r matches Err(e)
                    && e.code() == Code::Conflict && final(self).same_data(old(self))
                    && final(self).reservations() == old(self).reservations())
                &&& valid && !at_or_before(txn_id@, old(self).finalized()) && write_conflicts(old(self).reservations(), txn_id@, k) ==> (r matches Err(e)
                    && e.code() == Code::Conflict && final(self).same_data(old(self))
                    && final(self).reservations() == old(self).reservations())
                &&& valid && !at_or_before(txn_id@, old(self).finalized()) && !write_conflicts(old(self).reservations(), txn_id@, k) && old(self).closed_to(txn_id@)
                    ==> (r matches Err(e) && e.code() == Code::Conflict && final(self).same_data(old(self))
                    && final(self).reservations() == reserved)
                &&& valid && !at_or_before(txn_id@, old(self).finalized()) && !write_conflicts(old(self).reservations(), txn_id@, k) && !old(self).closed_to(txn_id@)
                    ==> (r is Ok && final(self).reservations() == reserved && old(self).pending_becomes(
                    final(self),
                    txn_id@,
                    match seen {
                        Some(row) => (p.0.remove(k), p.1.insert(k, row)),
                        None => p,
                    },
                ))
            }),
    {
        let key = match self.schema.validate_key(key) {
            Ok(key) => key,
            Err(e) => return Err(e),
        };
        let range = self.schema.range_from_key(&key);
        if self.is_finalized(&txn_id) {
            return Err(conflict());
        }
        let ghost before = *self;
        let granted = self.semaphore.write(txn_id, range);
        proof {
            assert(self.state == before.state);
            lemma_wf_frame(before, *self);
        }
        match granted {
            Ok(_) => {},
            Err(e) => return Err(e),
        }
        match self.pending_version(&txn_id) {
            Ok(()) => {},
            Err(e) => return Err(e),
        }
        let found = self.visible_row(&txn_id, &key);
        match found {
            Some(row) => {
                let values = values_after(&row, self.schema.key.len());
                let mut d = self.take_pending(&txn_id);
                d.delete(key, values);
                proof {
                    let k = values_view(key@);
                    let rv = values_view(row@);
                    assert(k + rv.subrange(k.len() as int, rv.len() as int) =~= rv);
                }
                self.put_pending(&txn_id, d);
            },
            None => {},
        }
        assert(self.pending() =~= old(self).pending().insert(txn_id@, self.pending()[txn_id@]));
        Ok(())
    }

    /// Commit transaction `t`: its pending delta, if any, joins the committed
    /// deltas, and its reservations are released. A second commit of `t`
    /// changes no rows or deltas. `t` must not be finalized.
    pub fn commit(&mut self, txn_id: &TxnId)
        requires
            old(self).wf(),
            !at_or_before(txn_id@, old(self).finalized()),
        ensures
            final(self).wf(),
            final(self).spec_schema() == old(self).spec_schema(),
            final(self).canon_rows() == old(self).canon_rows(),
            final(self).finalized() == old(self).finalized(),
            old(self).commits().contains(txn_id@) ==> final(self).same_data(old(self)),
            !old(self).commits().contains(txn_id@) ==> {
                &&& final(self).commits() == old(self).commits().insert(txn_id@)
                &&& final(self).pending() == old(self).pending().remove(txn_id@)
                &&& final(self).committed() == if old(self).pending().contains_key(txn_id@) {
                    old(self).committed().insert(txn_id@, old(self).pending()[txn_id@])
                } else {
                    old(self).committed()
                }
            },
            forall|x: ReservationView|
                #![trigger final(self).reservations().contains(x)]
                final(self).reservations().contains(x) <==> (old(self).reservations().contains(x)
                    && outlives(x, txn_id@, false)),
    {
        let id = txn_id.key();
        let ghost committed = self.committed();
        let ghost pending = self.pending();
        let ghost commits = self.commits();
        if txn_set_insert(&mut self.state.commits, id) {
            let taken = delta_map_remove(&mut self.state.pending, &id);
            match taken {
                Some(d) => {
                    delta_map_insert(&mut self.state.deltas, id, d);
                },
                None => {},
            }
            proof {
                assert forall|i: IdView| #[trigger] self.committed().contains_key(i) implies self.fits(
                    self.committed()[i],
                ) && self.commits().contains(i) by {
                    if i != txn_id@ {
                        assert(committed.contains_key(i));
                    } else {
                        assert(pending.contains_key(i));
                    }
                }
                assert forall|i: IdView| #[trigger] self.commits().contains(i) implies !at_or_before(
                    i,
                    self.finalized(),
                ) by {
                    if i != txn_id@ {
                        assert(commits.contains(i));
                    }
                }
                assert forall|i: IdView| #[trigger] self.pending().contains_key(i) implies self.fits(
                    self.pending()[i],
                ) && self.open_to(i) by {
                    assert(pending.contains_key(i));
                }
            }
        } else {
            proof {
                assert(self.commits() =~= commits);
                assert(self.committed() == committed);
                assert(self.pending() == pending);
                assert forall|i: IdView| #[trigger] self.committed().contains_key(i) implies self.fits(
                    self.committed()[i],
                ) && self.commits().contains(i) by {
                    assert(committed.contains_key(i));
                }
                assert forall|i: IdView| #[trigger] self.commits().contains(i) implies !at_or_before(
                    i,
                    self.finalized(),
                ) by {
                    assert(commits.contains(i));
                }
                assert forall|i: IdView| #[trigger] self.pending().contains_key(i) implies self.fits(
                    self.pending()[i],
                ) && self.open_to(i) by {
                    assert(pending.contains_key(i));
                }
            }
        }
        let ghost before = *self;
        self.semaphore.finalize(txn_id, false);
        proof {
            assert(self.state == before.state);
            lemma_wf_frame(before, *self);
        }
    }

    /// Roll back transaction `t`: its pending delta, if any, is discarded and
    /// its reservations are released. `t` must be neither committed nor
    /// finalized.
    pub fn rollback(&mut self, txn_id: &TxnId)
        requires
            old(self).wf(),
            !at_or_before(txn_id@, old(self).finalized()),
            !old(self).commits().contains(txn_id@),
        ensures
            final(self).wf(),
            final(self).same_but_pending(old(self)),
            final(self).pending() == old(self).pending().remove(txn_id@),
            forall|x: ReservationView|
                #![trigger final(self).reservations().contains(x)]
                final(self).reservations().contains(x) <==> (old(self).reservations().contains(x)
                    && outlives(x, txn_id@, false)),
    {
        let id = txn_id.key();
        let ghost committed = self.committed();
        let ghost pending = self.pending();
        let ghost commits = self.commits();
        let _ = delta_map_remove(&mut self.state.pending, &id);
        proof {
            assert(self.committed() == committed);
            assert(self.commits() == commits);
            assert forall|i: IdView| #[trigger] self.pending().contains_key(i) implies self.fits(
                self.pending()[i],
            ) && self.open_to(i) by {
                assert(pending.contains_key(i));
            }
        }
        let ghost before = *self;
        self.semaphore.finalize(txn_id, false);
        proof {
            assert(self.state == before.state);
            lemma_wf_frame(before, *self);
        }
    }

    /// Fold the committed deltas at or before `t` into the canonical version.
    fn fold_committed_upto(&mut self, t: &TxnId)
        requires
            old(self).wf(),
        ensures
            final(self).wf(),
            final(self).spec_schema() == old(self).spec_schema(),
            final(self).pending() == old(self).pending(),
            final(self).commits() == old(self).commits(),
            final(self).finalized() == old(self).finalized(),
            final(self).reservations() == old(self).reservations(),
            final(self).canon_rows() == fold_layers(old(self).canon_rows(), old(self).committed_layers(t@)),
            final(self).committed() == old(self).committed().remove_keys(
                ids_upto(old(self).committed().dom(), t@),
            ),
    {
        let ids = self.visible_ids(t);
        let ghost committed = self.committed();
        let ghost canon = self.canon@;
        let ghost pending = self.pending();
        let ghost commits = self.commits();
        let ghost upto = ids_upto(committed.dom(), t@);
        proof {
            assert(ascending_ids(upto) == ids@);
            assert(ascending(ids@));
        }
        let mut i: usize = 0;
        assert(committed.remove_keys(Set::new(|id: IdView| ids@.subrange(0, 0).contains(id))) =~= committed);
        while i < ids.len()
            invariant
                self.wf(),
                self.spec_schema() == old(self).spec_schema(),
                self.pending() == pending,
                self.commits() == commits,
                self.finalized() == old(self).finalized(),
                self.reservations() == old(self).reservations(),
                committed == old(self).committed(),
                canon == old(self).canon_rows(),
                ids@ == ascending_ids(upto),
                ascending(ids@),
                upto == ids_upto(committed.dom(), t@),
                forall|id: IdView| ids@.contains(id) <==> upto.contains(id),
                i <= ids.len(),
                self.canon@ == fold_layers(canon, layers_of(ids@.subrange(0, i as int), committed)),
                self.committed() == committed.remove_keys(
                    Set::new(|id: IdView| ids@.subrange(0, i as int).contains(id)),
                ),
            decreases ids.len() - i,
        {
            let id = ids[i];
            proof {
                assert(ids@.contains(id));
                assert(!ids@.subrange(0, i as int).contains(id)) by {
                    if ids@.subrange(0, i as int).contains(id) {
                        let j = choose|j: int| 0 <= j < i && ids@.subrange(0, i as int)[j] == id;
                        assert(ids@[j] == id);
                        assert(txn_rank(ids@[j]) < txn_rank(ids@[i as int]));
                    }
                }
                assert(self.committed().contains_key(id));
            }
            let ghost before_committed = self.committed();
            let ghost pend = self.pending();
            let ghost comm = self.commits();
            let d = delta_map_remove(&mut self.state.deltas, &id).unwrap();
            d.fold_into(&mut self.canon);
            proof {
                let prev = layers_of(ids@.subrange(0, i as int), committed);
                let next = layers_of(ids@.subrange(0, i + 1), committed);
                assert(next.drop_last() =~= prev);
                assert(next.last() == committed[id]@);
                assert(self.committed() =~= committed.remove_keys(
                    Set::new(|x: IdView| ids@.subrange(0, i + 1).contains(x)),
                )) by {
                    lemma_prefix_push(ids@, i as int);
                }
                assert(self.pending() == pend);
                assert(self.commits() == comm);
                assert forall|x: IdView| #[trigger] self.committed().contains_key(x) implies self.fits(
                    self.committed()[x],
                ) && self.commits().contains(x) by {
                    assert(before_committed.contains_key(x));
                }
                assert forall|x: IdView| #[trigger] self.commits().contains(x) implies !at_or_before(
                    x,
                    self.finalized(),
                ) by {
                    assert(comm.contains(x));
                }
                assert forall|x: IdView| #[trigger] self.pending().contains_key(x) implies self.fits(
                    self.pending()[x],
                ) && self.open_to(x) by {
                    assert(pend.contains_key(x));
                }
            }
            i = i + 1;
        }
        proof {
            assert(ids@.subrange(0, i as int) =~= ids@);
            assert(Set::new(|id: IdView| ids@.contains(id)) =~= upto);
        }
    }

    /// Remove from the committed transactions those at or before `t`.
    fn drop_commits_upto(&mut self, t: &TxnId)
        requires
            old(self).wf(),
            forall|id: IdView| #[trigger] old(self).committed().contains_key(id) ==> txn_rank(id) > txn_rank(t@),
        ensures
            final(self).wf(),
            final(self).spec_schema() == old(self).spec_schema(),
            final(self).canon_rows() == old(self).canon_rows(),
            final(self).committed() == old(self).committed(),
            final(self).pending() == old(self).pending(),
            final(self).finalized() == old(self).finalized(),
            final(self).reservations() == old(self).reservations(),
            final(self).commits() == old(self).commits().difference(ids_upto(old(self).commits(), t@)),
    {
        let members = txn_set_members(&self.state.commits);
        let ghost commits = self.commits();
        let ghost committed = self.committed();
        let ghost pending = self.pending();
        let mut i: usize = 0;
        assert(commits.difference(ids_upto(commits, t@).filter(|id: IdView| members@.subrange(0, 0).contains(id))) =~= commits);
        while i < members.len()
            invariant
                self.wf(),
                self.spec_schema() == old(self).spec_schema(),
                self.canon_rows() == old(self).canon_rows(),
                self.committed() == committed,
                self.pending() == pending,
                self.finalized() == old(self).finalized(),
                self.reservations() == old(self).reservations(),
                commits == old(self).commits(),
                committed == old(self).committed(),
                forall|id: IdView| #[trigger] committed.contains_key(id) ==> txn_rank(id) > txn_rank(t@),
                forall|id: IdView| members@.contains(id) <==> commits.contains(id),
                i <= members.len(),
                self.commits() == commits.difference(
                    ids_upto(commits, t@).filter(|id: IdView| members@.subrange(0, i as int).contains(id)),
                ),
            decreases members.len() - i,
        {
            let id = members[i];
            let ghost before = self.commits();
            if !t.precedes(&TxnId::from_key(id)) {
                txn_set_remove(&mut self.state.commits, &id);
            }
            proof {
                assert(self.committed() == committed);
                assert(self.pending() == pending);
                let next = commits.difference(
                    ids_upto(commits, t@).filter(|x: IdView| members@.subrange(0, i + 1).contains(x)),
                );
                lemma_prefix_push(members@, i as int);
                assert(members@.contains(id));
                assert(self.commits() =~= next);
                assert forall|x: IdView| #[trigger] self.committed().contains_key(x) implies self.fits(
                    self.committed()[x],
                ) && self.commits().contains(x) by {
                    assert(committed.contains_key(x));
                    assert(before.contains(x));
                }
                assert forall|x: IdView| #[trigger] self.commits().contains(x) implies !at_or_before(
                    x,
                    self.finalized(),
                ) by {
                    assert(before.contains(x));
                }
                assert forall|x: IdView| #[trigger] self.pending().contains_key(x) implies self.fits(
                    self.pending()[x],
                ) && self.open_to(x) by {
                    assert(pending.contains_key(x));
                }
            }
            i = i + 1;
        }
        proof {
            assert(members@.subrange(0, i as int) =~= members@);
            assert(ids_upto(commits, t@).filter(|id: IdView| members@.contains(id)) =~= ids_upto(commits, t@));
        }
    }

    /// Discard the pending deltas of transactions at or before `t`.
    fn drop_pending_upto(&mut self, t: &TxnId)
        requires
            old(self).wf(),
        ensures
            final(self).wf(),
            final(self).spec_schema() == old(self).spec_schema(),
            final(self).canon_rows() == old(self).canon_rows(),
            final(self).committed() == old(self).committed(),
            final(self).commits() == old(self).commits(),
            final(self).finalized() == old(self).finalized(),
            final(self).reservations() == old(self).reservations(),
            final(self).pending() == old(self).pending().remove_keys(ids_upto(old(self).pending().dom(), t@)),
    {
        let keys = delta_map_keys(&self.state.pending);
        let ghost commits = self.commits();
        let ghost committed = self.committed();
        let ghost pending = self.pending();
        let ghost upto = ids_upto(pending.dom(), t@);
        let mut i: usize = 0;
        assert(pending.remove_keys(upto.filter(|id: IdView| keys@.subrange(0, 0).contains(id))) =~= pending);
        while i < keys.len()
            invariant
                self.wf(),
                self.spec_schema() == old(self).spec_schema(),
                self.canon_rows() == old(self).canon_rows(),
                self.committed() == committed,
                self.commits() == commits,
                self.finalized() == old(self).finalized(),
                self.reservations() == old(self).reservations(),
                pending == old(self).pending(),
                upto == ids_upto(pending.dom(), t@),
                forall|id: IdView| keys@.contains(id) <==> pending.contains_key(id),
                i <= keys.len(),
                self.pending() == pending.remove_keys(
                    upto.filter(|id: IdView| keys@.subrange(0, i as int).contains(id)),
                ),
            decreases keys.len() - i,
        {
            let id = keys[i];
            let ghost before = self.pending();
            if !t.precedes(&TxnId::from_key(id)) {
                let _ = delta_map_remove(&mut self.state.pending, &id);
            }
            proof {
                assert(self.committed() == committed);
                assert(self.commits() == commits);
                let next = pending.remove_keys(
                    upto.filter(|x: IdView| keys@.subrange(0, i + 1).contains(x)),
                );
                lemma_prefix_push(keys@, i as int);
                assert(keys@.contains(id));
                assert(self.pending() =~= next);
                assert forall|x: IdView| #[trigger] self.committed().contains_key(x) implies self.fits(
                    self.committed()[x],
                ) && self.commits().contains(x) by {
                    assert(committed.contains_key(x));
                }
                assert forall|x: IdView| #[trigger] self.commits().contains(x) implies !at_or_before(
                    x,
                    self.finalized(),
                ) by {
                    assert(commits.contains(x));
                }
                assert forall|x: IdView| #[trigger] self.pending().contains_key(x) implies self.fits(
                    self.pending()[x],
                ) && self.open_to(x) by {
                    assert(before.contains_key(x));
                }
            }
            i = i + 1;
        }
        proof {
            assert(keys@.subrange(0, i as int) =~= keys@);
            assert(upto.filter(|id: IdView| keys@.contains(id)) =~= upto);
        }
    }

    /// Finalize the history up to transaction `t`: the committed deltas at or
    /// before `t` are folded into the canonical version, oldest first, and
    /// discarded, as are the pending deltas and commit records at or before
    /// `t`; the reservations at or before `t` are released. Nothing happens
    /// where `t` lies at or before the last finalized transaction.
    pub fn finalize(&mut self, txn_id: &TxnId)
        requires
            old(self).wf(),
        ensures
            final(self).wf(),
            final(self).spec_schema() == old(self).spec_schema(),
            at_or_before(txn_id@, old(self).finalized()) ==> final(self).same_data(old(self))
                && final(self).reservations() == old(self).reservations(),
            !at_or_before(txn_id@, old(self).finalized()) ==> {
                &&& final(self).canon_rows() == fold_layers(
                    old(self).canon_rows(),
                    old(self).committed_layers(txn_id@),
                )
                &&& final(self).committed() == old(self).committed().remove_keys(
                    ids_upto(old(self).committed().dom(), txn_id@),
                )
                &&& final(self).pending() == old(self).pending().remove_keys(
                    ids_upto(old(self).pending().dom(), txn_id@),
                )
                &&& final(self).commits() == old(self).commits().difference(
                    ids_upto(old(self).commits(), txn_id@),
                )
                &&& final(self).finalized() == Some(txn_id@)
                &&& forall|x: ReservationView|
                    #![trigger final(self).reservations().contains(x)]
                    final(self).reservations().contains(x) <==> (old(self).reservations().contains(
                        x,
                    ) && outlives(x, txn_id@, true))
            },
    {
        if self.is_finalized(txn_id) {
            return;
        }
        self.fold_committed_upto(txn_id);
        self.drop_commits_upto(txn_id);
        self.drop_pending_upto(txn_id);
        let ghost committed = self.committed();
        let ghost pending = self.pending();
        let ghost commits = self.commits();
        self.state.finalized = Some(*txn_id);
        proof {
            assert(self.committed() == committed);
            assert(self.pending() == pending);
            assert(self.commits() == commits);
            assert forall|x: IdView| #[trigger] self.committed().contains_key(x) implies self.fits(
                self.committed()[x],
            ) && self.commits().contains(x) by {
                assert(committed.contains_key(x));
            }
            assert forall|x: IdView| #[trigger] self.commits().contains(x) implies !at_or_before(
                x,
                self.finalized(),
            ) by {
                assert(commits.contains(x));
            }
            assert forall|x: IdView| #[trigger] self.pending().contains_key(x) implies self.fits(
                self.pending()[x],
            ) && self.open_to(x) by {
                assert(pending.contains_key(x));
            }
        }
        let ghost before = *self;
        self.semaphore.finalize(txn_id, true);
        proof {
            assert(self.state == before.state);
            lemma_wf_frame(before, *self);
        }
    }

    /// The rows in `range` that transaction `t` sees, in ascending order of
    /// key; a `Conflict` error where a later transaction has reserved an
    /// overlapping range for writing.
    pub fn into_stream(&mut self, txn_id: TxnId, range: Range) -> (r: TCResult<Vec<Vec<Value>>>)
        requires
            old(self).wf(),
        ensures
            final(self).wf(),
            final(self).same_data(old(self)),
            r is Err <==> read_conflicts(old(self).reservations(), txn_id@, range@),
            r matches Err(e) ==> e.code() == Code::Conflict && final(self).reservations() == old(
                self,
            ).reservations(),
            r matches Ok(rows) ==> {
                &&& sorted_rows(rows_view(rows@), old(self).spec_schema().key_len())
                &&& rows_map(rows_view(rows@), old(self).spec_schema().key_len()) == restrict_range(
                    old(self).snapshot(txn_id@),
                    range@,
                )
                &&& final(self).reservations() == old(self).reservations().push(
                    (txn_id@, range@, false),
                )
            },
    {
        let ghost before = *self;
        let granted = self.semaphore.read(txn_id, range);
        proof {
            assert(self.state == before.state);
            lemma_wf_frame(before, *self);
        }
        match granted {
            Ok(range) => {
                let rows = self.into_rows(&txn_id, &range);
                Ok(rows.to_rows())
            },
            Err(e) => Err(e),
        }
    }

    /// Every row that transaction `t` sees, in ascending order of key.
    pub fn rows(&mut self, txn_id: TxnId) -> (r: TCResult<Vec<Vec<Value>>>)
        requires
            old(self).wf(),
        ensures
            final(self).wf(),
            final(self).same_data(old(self)),
            r is Err <==> read_conflicts(old(self).reservations(), txn_id@, Seq::empty()),
            r matches Err(e) ==> e.code() == Code::Conflict,
            r matches Ok(rows) ==> {
                &&& sorted_rows(rows_view(rows@), old(self).spec_schema().key_len())
                &&& rows_map(rows_view(rows@), old(self).spec_schema().key_len()) == old(
                    self,
                ).snapshot(txn_id@)
            },
    {
        let r = self.into_stream(txn_id, Range::all());
        proof {
            lemma_restrict_all(old(self).snapshot(txn_id@));
        }
        r
    }

    /// The number of rows that transaction `t` sees.
    pub fn count(&mut self, txn_id: TxnId) -> (r: TCResult<u64>)
        requires
            old(self).wf(),
        ensures
            final(self).wf(),
            final(self).same_data(old(self)),
            r is Err <==> read_conflicts(old(self).reservations(), txn_id@, Seq::empty()),
            r matches Err(e) ==> e.code() == Code::Conflict,
            r matches Ok(n) ==> n == old(self).snapshot(txn_id@).len(),
    {
        match self.rows(txn_id) {
            Ok(rows) => {
                proof {
                    lemma_rows_map_len(rows_view(rows@), self.schema.key_len());
                }
                Ok(rows.len() as u64)
            },
            Err(e) => Err(e),
        }
    }
}

/// The rows of `m`, each updated by `values`.
pub open spec fn updated_rows(schema: TableSchema, m: Rows, values: Seq<(String, Value)>) -> Rows {
    Map::new(|k: KeyView| m.contains_key(k), |k: KeyView| schema.updated_row(m[k], values))
}

impl TableFile {
    /// Record as deleted, in the pending delta of `t`, every row in `range`
    /// that `t` sees, withdrawing its insertion. A `Conflict` error where
    /// another transaction has reserved an overlapping range for writing, or
    /// a later one for reading, or where `t` is committed or finalized.
    pub fn truncate(&mut self, txn_id: TxnId, range: Range) -> (r: TCResult<()>)
        requires
            old(self).wf(),
        ensures
            final(self).wf(),
            ({
                let reserved = old(self).reservations().push((txn_id@, range@, true));
                let p = delta_or_empty(old(self).pending(), txn_id@);
                let seen = restrict_range(old(self).snapshot(txn_id@), range@);
                &&& at_or_before(txn_id@, old(self).finalized()) ==> (r matches Err(e)
                    && e.code() == Code::Conflict && final(self).same_data(old(self))
                    && final(self).reservations() == old(self).reservations())
                &&& !at_or_before(txn_id@, old(self).finalized()) && write_conflicts(old(self).reservations(), txn_id@, range@) ==> (r matches Err(e)
                    && e.code() == Code::Conflict && final(self).same_data(old(self))
                    && final(self).reservations() == old(self).reservations())
                &&& !at_or_before(txn_id@, old(self).finalized()) && !write_conflicts(old(self).reservations(), txn_id@, range@) && old(self).closed_to(txn_id@)
                    ==> (r matches Err(e) && e.code() == Code::Conflict && final(self).same_data(old(self))
                    && final(self).reservations() == reserved)
                &&& !at_or_before(txn_id@, old(self).finalized()) && !write_conflicts(old(self).reservations(), txn_id@, range@) && !old(self).closed_to(txn_id@)
                    ==> (r is Ok && final(self).reservations() == reserved && old(self).pending_becomes(
                    final(self),
                    txn_id@,
                    (p.0.remove_keys(seen.dom()), p.1.union_prefer_right(seen)),
                ))
            }),
    {
        if self.is_finalized(&txn_id) {
            return Err(conflict());
        }
        let ghost before = *self;
        let granted = self.semaphore.write(txn_id, range);
        proof {
            assert(self.state == before.state);
            lemma_wf_frame(before, *self);
        }
        let range = match granted {
            Ok(range) => range,
            Err(e) => return Err(e),
        };
        let seen = self.into_rows(&txn_id, &range);
        match self.pending_version(&txn_id) {
            Ok(()) => {},
            Err(e) => return Err(e),
        }
        let rows = seen.to_rows();
        let ghost n = self.schema.key_len();
        let ghost rv = rows_view(rows@);
        let ghost p = self.pending()[txn_id@]@;
        proof {
            lemma_rows_map(rv, n);
        }
        let mut d = self.take_pending(&txn_id);
        let mut i: usize = 0;
        assert(rv.subrange(0, 0) =~= Seq::<RowView>::empty());
        assert(p.0.remove_keys(Set::empty()) =~= p.0);
        assert(p.1.union_prefer_right(Rows::empty()) =~= p.1);
        while i < rows.len()
            invariant
                d.wf(),
                d.key_len() == n,
                n == self.schema.key_len(),
                rv == rows_view(rows@),
                sorted_rows(rv, n),
                i <= rows.len(),
                d@ == ({
                    let done = rows_map(rv.subrange(0, i as int), n);
                    (p.0.remove_keys(done.dom()), p.1.union_prefer_right(done))
                }),
            decreases rows.len() - i,
        {
            assert(rv[i as int] == values_view(rows@[i as int]@));
            assert(rv[i as int].len() >= n);
            let key = key_prefix(&rows[i], self.schema.key.len());
            let values = values_after(&rows[i], self.schema.key.len());
            d.delete(key, values);
            proof {
                let row = rv[i as int];
                assert(rv.subrange(0, i + 1).drop_last() =~= rv.subrange(0, i as int));
                assert(row.subrange(0, n as int) + row.subrange(n as int, row.len() as int) =~= row);
                let done = rows_map(rv.subrange(0, i as int), n);
                let next = rows_map(rv.subrange(0, i + 1), n);
                assert(next == done.insert(key_of(row, n), row));
                assert(d@.0 =~= p.0.remove_keys(next.dom()));
                assert(d@.1 =~= p.1.union_prefer_right(next));
            }
            i = i + 1;
        }
        proof {
            assert(rv.subrange(0, i as int) =~= rv);
        }
        self.put_pending(&txn_id, d);
        assert(self.pending() =~= old(self).pending().insert(txn_id@, self.pending()[txn_id@]));
        Ok(())
    }

    /// Set, in the pending delta of `t`, the value columns that `values`
    /// assigns in every row in `range` that `t` sees, withdrawing any
    /// deletion of those rows. A `BadRequest` error where an assignment does
    /// not name a value column or does not fit its type; `Conflict` errors as
    /// [`TableFile::truncate`] has them.
    pub fn update(&mut self, txn_id: TxnId, range: Range, values: &Vec<(String, Value)>) -> (r:
        TCResult<()>)
        requires
            old(self).wf(),
        ensures
            final(self).wf(),
            ({
                let valid = old(self).spec_schema().valid_assignments(values@);
                let reserved = old(self).reservations().push((txn_id@, range@, true));
                let p = delta_or_empty(old(self).pending(), txn_id@);
                let seen = restrict_range(old(self).snapshot(txn_id@), range@);
                let changed = updated_rows(old(self).spec_schema(), seen, values@);
                &&& !valid ==> (r matches Err(e) && e.code() == Code::BadRequest && final(self).same_data(old(self))
                    && final(self).reservations() == old(self).reservations())
                &&& valid && at_or_before(txn_id@, old(self).finalized()) ==> (r matches Err(e)
                    && e.code() == Code::Conflict && final(self).same_data(old(self))
                    && final(self).reservations() == old(self).reservations())
                &&& valid && !at_or_before(txn_id@, old(self).finalized()) && write_conflicts(old(self).reservations(), txn_id@, range@) ==> (r matches Err(e)
                    && e.code() == Code::Conflict && final(self).same_data(old(self))
                    && final(self).reservations() == old(self).reservations())
                &&& valid && !at_or_before(txn_id@, old(self).finalized()) && !write_conflicts(old(self).reservations(), txn_id@, range@) && old(self).closed_to(txn_id@)
                    ==> (r matches Err(e) && e.code() == Code::Conflict && final(self).same_data(old(self))
                    && final(self).reservations() == reserved)
                &&& valid && !at_or_before(txn_id@, old(self).finalized()) && !write_conflicts(old(self).reservations(), txn_id@, range@) && !old(self).closed_to(txn_id@)
                    ==> (r is Ok && final(self).reservations() == reserved && old(self).pending_becomes(
                    final(self),
                    txn_id@,
                    (p.0.union_prefer_right(changed), p.1.remove_keys(changed.dom())),
                ))
            }),
    {
        if !self.schema.check_assignments(values) {
            return Err(bad_request("cannot update", "an assignment does not fit a value column"));
        }
        if self.is_finalized(&txn_id) {
            return Err(conflict());
        }
        let ghost before = *self;
        let granted = self.semaphore.write(txn_id, range);
        proof {
            assert(self.state == before.state);
            lemma_wf_frame(before, *self);
        }
        let range = match granted {
            Ok(range) => range,
            Err(e) => return Err(e),
        };
        let seen = self.into_rows(&txn_id, &range);
        match self.pending_version(&txn_id) {
            Ok(()) => {},
            Err(e) => return Err(e),
        }
        let rows = seen.to_rows();
        let ghost n = self.schema.key_len();
        let ghost rv = rows_view(rows@);
        let ghost p = self.pending()[txn_id@]@;
        let ghost schema = self.schema;
        proof {
            lemma_rows_map(rv, n);
        }
        let mut d = self.take_pending(&txn_id);
        let mut i: usize = 0;
        assert(rv.subrange(0, 0) =~= Seq::<RowView>::empty());
        assert(updated_rows(schema, Rows::empty(), values@) =~= Rows::empty());
        assert(p.1.remove_keys(Set::empty()) =~= p.1);
        assert(p.0.union_prefer_right(Rows::empty()) =~= p.0);
        while i < rows.len()
            invariant
                d.wf(),
                d.key_len() == n,
                n == self.schema.key_len(),
                schema == self.schema,
                rv == rows_view(rows@),
                sorted_rows(rv, n),
                i <= rows.len(),
                d@ == ({
                    let done = updated_rows(schema, rows_map(rv.subrange(0, i as int), n), values@);
                    (p.0.union_prefer_right(done), p.1.remove_keys(done.dom()))
                }),
            decreases rows.len() - i,
        {
            assert(rv[i as int] == values_view(rows@[i as int]@));
            assert(rv[i as int].len() >= n);
            let row = self.schema.update_row(&rows[i], values);
            assert(values_view(row@).len() == row@.len());
            assert(values_view(row@).len() == rv[i as int].len());
            let key = key_prefix(&row, self.schema.key.len());
            let vals = values_after(&row, self.schema.key.len());
            d.upsert(key, vals);
            proof {
                let old_row = rv[i as int];
                let new_row = values_view(row@);
                assert(rv.subrange(0, i + 1).drop_last() =~= rv.subrange(0, i as int));
                assert(new_row.subrange(0, n as int) + new_row.subrange(n as int, new_row.len() as int) =~= new_row);
                assert(new_row.subrange(0, n as int) =~= key_of(old_row, n));
                let done = rows_map(rv.subrange(0, i as int), n);
                let next = rows_map(rv.subrange(0, i + 1), n);
                assert(next == done.insert(key_of(old_row, n), old_row));
                assert(updated_rows(schema, next, values@) =~= updated_rows(schema, done, values@).insert(
                    key_of(old_row, n),
                    new_row,
                ));
                assert(d@.0 =~= p.0.union_prefer_right(updated_rows(schema, next, values@)));
                assert(d@.1 =~= p.1.remove_keys(updated_rows(schema, next, values@).dom()));
            }
            i = i + 1;
        }
        proof {
            assert(rv.subrange(0, i as int) =~= rv);
        }
        self.put_pending(&txn_id, d);
        assert(self.pending() =~= old(self).pending().insert(txn_id@, self.pending()[txn_id@]));
        Ok(())
    }
}

/// The range of all keys holds every key.
proof fn lemma_restrict_all(m: Rows)
    ensures
        restrict_range(m, Seq::<ValueView>::empty()) == m,
{
    assert forall|k: KeyView| range_contains(Seq::<ValueView>::empty(), k) by {
        assert(k.subrange(0, 0) =~= Seq::<ValueView>::empty());
    }
    assert(restrict_range(m, Seq::<ValueView>::empty()) =~= m);
}

} // verus!

verus! {

impl TableFile {
    /// The number of committed deltas not yet folded into the canonical
    /// version.
    pub fn committed_count(&self) -> (r: usize)
        requires
            self.wf(),
        ensures
            r == self.committed().len(),
    {
        let ids = delta_map_keys(&self.state.deltas);
        proof {
            self.lemma_finite();
            lemma_ascending_ids_finite(self.committed().dom());
            lemma_ascending_ids(ids@, self.committed().dom());
            lemma_ascending_len(ids@);
            assert(ids@.to_set() =~= self.committed().dom());
        }
        ids.len()
    }

    /// A new table that `t` fills with `rows`, as the pending delta of `t`,
    /// and in which `t` holds the whole key range for writing. A
    /// `BadRequest` error where a row does not match the schema.
    pub fn copy_from(txn_id: TxnId, schema: TableSchema, rows: Vec<Vec<Value>>) -> (r: TCResult<TableFile>)
        ensures
            r is Err <==> exists|i: int| 0 <= i < rows@.len() && !schema.valid_row(values_view(#[trigger] rows@[i]@)),
            r matches Err(e) ==> e.code() == Code::BadRequest,
            r matches Ok(tbl) ==> {
                &&& tbl.wf()
                &&& tbl.spec_schema() == schema
                &&& tbl.canon_rows() == Rows::empty()
                &&& tbl.committed() == Map::<IdView, Delta>::empty()
                &&& tbl.commits() == Set::<IdView>::empty()
                &&& tbl.finalized() is None
                &&& tbl.pending().dom() == set![txn_id@]
                &&& tbl.pending()[txn_id@]@ == (rows_map(rows_view(rows@), schema.key_len()), Rows::empty())
                &&& tbl.reservations() == seq![(txn_id@, Seq::<ValueView>::empty(), true)]
            },
    {
        let n = schema.key.len();
        let mut inserts = Version::create(n);
        let mut i: usize = 0;
        let ghost rv = rows_view(rows@);
        assert(rv.subrange(0, 0) =~= Seq::<RowView>::empty());
        while i < rows.len()
            invariant
                n == schema.key_len(),
                rv == rows_view(rows@),
                i <= rows.len(),
                inserts.wf(),
                inserts.key_len() == n,
                inserts@ == rows_map(rv.subrange(0, i as int), n as nat),
                forall|j: int| 0 <= j < i ==> schema.valid_row(values_view(#[trigger] rows@[j]@)),
            decreases rows.len() - i,
        {
            if !schema.row_fits(&rows[i]) {
                return Err(bad_request("cannot copy a row", "it does not match the schema"));
            }
            assert(rv[i as int] == values_view(rows@[i as int]@));
            let row = clone_values(&rows[i]);
            inserts.insert_row(row);
            assert(rv.subrange(0, i + 1).drop_last() =~= rv.subrange(0, i as int));
            i = i + 1;
        }
        assert(rv.subrange(0, i as int) =~= rv);
        let id = txn_id.key();
        let mut pending = delta_map_new();
        delta_map_insert(&mut pending, id, Delta::from_inserts(inserts));
        let canon = Version::create(n);
        let tbl = TableFile {
            schema,
            canon,
            state: State {
                commits: txn_set_new(),
                deltas: delta_map_new(),
                pending,
                finalized: None,
            },
            semaphore: Semaphore::with_reservation(txn_id, Range::all()),
        };
        proof {
            assert(tbl.pending().dom() =~= set![txn_id@]);
            assert forall|x: IdView| #[trigger] tbl.pending().contains_key(x) implies tbl.fits(
                tbl.pending()[x],
            ) && tbl.open_to(x) by {}
        }
        Ok(tbl)
    }

    /// A table over the canonical version `canon` and the committed deltas
    /// `committed`, each under the name of its transaction; entries whose
    /// names begin with `.` are hidden and skipped. A `BadRequest` error
    /// where another name does not write a transaction identifier.
    pub fn new(schema: TableSchema, canon: Version, committed: Vec<(String, Delta)>) -> (r: TCResult<TableFile>)
        requires
            canon.wf(),
            canon.key_len() == schema.key_len(),
            forall|j: int| 0 <= j < committed@.len() ==> (#[trigger] committed@[j]).1.wf()
                && committed@[j].1.key_len() == schema.key_len(),
        ensures
            r is Ok <==> forall|j: int| 0 <= j < committed@.len() && !is_hidden((#[trigger] committed@[j]).0@)
                ==> exists|id: IdView| names_txn(committed@[j].0@, id),
            r matches Err(e) ==> e.code() == Code::BadRequest,
            r matches Ok(tbl) ==> {
                &&& tbl.wf()
                &&& tbl.spec_schema() == schema
                &&& tbl.canon_rows() == canon@
                &&& tbl.committed() == loaded(committed@)
                &&& tbl.commits() == loaded(committed@).dom()
                &&& tbl.pending() == Map::<IdView, Delta>::empty()
                &&& tbl.finalized() is None
                &&& tbl.reservations() == Seq::<ReservationView>::empty()
            },
    {
        let ghost entries = committed@;
        let mut rest = committed;
        let mut deltas = delta_map_new();
        let mut commits = txn_set_new();
        let mut i: usize = 0;
        let n = rest.len();
        assert(entries.subrange(0, 0) =~= Seq::<(String, Delta)>::empty());
        while rest.len() > 0
            invariant
                n == entries.len(),
                i + rest@.len() == n,
                rest@ == entries.subrange(i as int, n as int),
                entries == committed@,
                delta_entries(deltas) == loaded(entries.subrange(0, i as int)),
                txn_ids(commits) == loaded(entries.subrange(0, i as int)).dom(),
                forall|j: int| 0 <= j < entries.len() ==> (#[trigger] entries[j]).1.wf()
                    && entries[j].1.key_len() == schema.key_len(),
                forall|j: int| 0 <= j < i && !is_hidden((#[trigger] entries[j]).0@) ==> exists|id: IdView|
                    names_txn(entries[j].0@, id),
                forall|id: IdView| #[trigger] loaded(entries.subrange(0, i as int)).contains_key(id) ==> exists|j: int| 0 <= j < i && loaded(entries.subrange(0, i as int))[id] == entries[j].1,
            decreases rest.len(),
        {
            let ghost before = rest@;
            let (name, delta) = rest.remove(0);
            assert(entries[i as int] == before[0]);
            assert(rest@ =~= entries.subrange(i + 1, n as int));
            assert(entries.subrange(0, i + 1).drop_last() =~= entries.subrange(0, i as int));
            let s = name.as_str();
            let hidden = s.unicode_len() > 0 && s.get_char(0) == '.';
            assert(hidden == is_hidden(name@));
            assert(entries[i as int].0 == name);
            if !hidden {
                match TxnId::parse(s) {
                    Ok(id) => {
                        proof {
                            assert forall|other: IdView| names_txn(name@, other) implies other == id@ by {
                                lemma_names_txn_unique(name@, other, id@);
                            }
                        }
                        let key = id.key();
                        delta_map_insert(&mut deltas, key, delta);
                        txn_set_insert(&mut commits, key);
                    },
                    Err(e) => {
                        proof {
                            assert(s@ == name@);
                            assert(!is_hidden(entries[i as int].0@));
                            assert(!(exists|id: IdView| names_txn(entries[i as int].0@, id)));
                            assert(0 <= i < entries.len() && !is_hidden(entries[i as int].0@) && !(exists|id: IdView| names_txn(entries[i as int].0@, id)));
                        }
                        return Err(e);
                    },
                }
            }
            proof {
                let prev = loaded(entries.subrange(0, i as int));
                let next = loaded(entries.subrange(0, i + 1));
                assert forall|id: IdView| #[trigger] next.contains_key(id) implies exists|j: int| 0 <= j < i + 1 && next[id] == entries[j].1 by {
                    if !hidden && id == choose|x: IdView| names_txn(entries[i as int].0@, x) {
                        assert(next[id] == entries[i as int].1);
                    } else {
                        assert(prev.contains_key(id));
                    }
                }
            }
            i = i + 1;
        }
        assert(entries.subrange(0, i as int) =~= entries);
        let tbl = TableFile {
            schema,
            canon,
            state: State { commits, deltas, pending: delta_map_new(), finalized: None },
            semaphore: Semaphore::new(),
        };
        proof {
            assert forall|id: IdView| #[trigger] tbl.committed().contains_key(id) implies tbl.fits(
                tbl.committed()[id],
            ) && tbl.commits().contains(id) by {
                let j = choose|j: int| 0 <= j < i && loaded(entries.subrange(0, i as int))[id] == entries[j].1;
            }
            assert(tbl.committed().dom().finite()) by {
                lemma_loaded_finite(entries);
            }
        }
        Ok(tbl)
    }
}

/// Whether a committed entry is hidden: its name begins with `.`.
pub open spec fn is_hidden(name: Seq<char>) -> bool {
    name.len() > 0 && name[0] == '.'
}

/// The committed deltas that `entries` give, by the transaction each name
/// writes; a later entry replaces an earlier one of the same transaction.
pub open spec fn loaded(entries: Seq<(String, Delta)>) -> Map<IdView, Delta>
    decreases entries.len(),
{
    if entries.len() == 0 {
        Map::empty()
    } else if is_hidden(entries.last().0@) {
        loaded(entries.drop_last())
    } else {
        loaded(entries.drop_last()).insert(
            choose|id: IdView| names_txn(entries.last().0@, id),
            entries.last().1,
        )
    }
}

proof fn lemma_loaded_finite(entries: Seq<(String, Delta)>)
    ensures
        loaded(entries).dom().finite(),
    decreases entries.len(),
{
    if entries.len() > 0 {
        lemma_loaded_finite(entries.drop_last());
    }
}

impl TableFile {
    /// The rows that the committed layers visible at `t` leave.
    fn committed_rows(&self, t: &TxnId) -> (r: Version)
        requires
            self.wf(),
        ensures
            r.wf(),
            r.key_len() == self.spec_schema().key_len(),
            r@ == fold_layers(self.canon_rows(), self.committed_layers(t@)),
    {
        let ids = self.visible_ids(t);
        let ghost committed = self.committed();
        let mut rows = self.canon.slice(&Range::all());
        proof {
            lemma_restrict_all(self.canon@);
        }
        let mut i: usize = 0;
        assert(layers_of(ids@.subrange(0, 0), committed) =~= Seq::<DeltaView>::empty());
        while i < ids.len()
            invariant
                self.wf(),
                committed == self.committed(),
                i <= ids.len(),
                forall|j: int| 0 <= j < ids@.len() ==> committed.contains_key(#[trigger] ids@[j]),
                rows.wf(),
                rows.key_len() == self.schema.key_len(),
                rows@ == fold_layers(self.canon@, layers_of(ids@.subrange(0, i as int), committed)),
            decreases ids.len() - i,
        {
            let id = ids[i];
            let d = delta_map_get(&self.state.deltas, &id).unwrap();
            d.fold_into(&mut rows);
            proof {
                let prev = layers_of(ids@.subrange(0, i as int), committed);
                let next = layers_of(ids@.subrange(0, i + 1), committed);
                assert(next.drop_last() =~= prev);
                assert(next.last() == committed[id]@);
            }
            i = i + 1;
        }
        assert(ids@.subrange(0, i as int) =~= ids@);
        rows
    }

    /// Make the rows that `t` sees those that `t` sees in `backup`: the
    /// pending delta of `t` inserts the rows of `backup` and deletes every
    /// other row that the committed layers leave. A `BadRequest` error where
    /// the schemas differ; `Conflict` errors where `t` cannot reserve the
    /// whole of this table for writing, or the whole of `backup` for reading,
    /// or where `t` is committed or finalized.
    pub fn restore(&mut self, txn_id: TxnId, backup: &mut TableFile) -> (r: TCResult<()>)
        requires
            old(self).wf(),
            old(backup).wf(),
        ensures
            final(self).wf(),
            final(backup).wf(),
            final(backup).same_data(old(backup)),
            r is Ok ==> old(self).spec_schema().columns_view() == old(backup).spec_schema().columns_view()
                && old(self).pending_becomes(
                final(self),
                txn_id@,
                ({
                    let b = old(backup).snapshot(txn_id@);
                    let v = fold_layers(old(self).canon_rows(), old(self).committed_layers(txn_id@));
                    (b, v.remove_keys(b.dom()))
                }),
            ),
            r is Ok <==> ({
                &&& !at_or_before(txn_id@, old(self).finalized())
                &&& !write_conflicts(old(self).reservations(), txn_id@, Seq::empty())
                &&& old(self).spec_schema().columns_view() == old(backup).spec_schema().columns_view()
                &&& !old(self).closed_to(txn_id@)
                &&& !read_conflicts(old(backup).reservations(), txn_id@, Seq::empty())
            }),
            r matches Err(e) ==> e.code() == Code::BadRequest || e.code() == Code::Conflict,
            r is Err ==> final(self).same_data(old(self)) || (final(self).same_but_pending(old(self))
                && final(self).pending() == old(self).pending().insert(txn_id@, final(self).pending()[txn_id@])
                && final(self).pending()[txn_id@]@ == delta_or_empty(old(self).pending(), txn_id@)),
    {
        if self.is_finalized(&txn_id) {
            return Err(conflict());
        }
        let ghost before = *self;
        let granted = self.semaphore.write(txn_id, Range::all());
        proof {
            assert(self.state == before.state);
            lemma_wf_frame(before, *self);
        }
        match granted {
            Ok(_) => {},
            Err(e) => return Err(e),
        }
        if !self.schema.same_columns(&backup.schema) {
            return Err(bad_request("cannot restore a table", "the schemas differ"));
        }
        match self.pending_version(&txn_id) {
            Ok(()) => {},
            Err(e) => return Err(e),
        }
        let rows = match backup.rows(txn_id) {
            Ok(rows) => rows,
            Err(e) => {
                assert(self.pending() =~= old(self).pending().insert(txn_id@, self.pending()[txn_id@]));
                return Err(e);
            },
        };
        let n = self.schema.key.len();
        let ghost rv = rows_view(rows@);
        let mut inserts = Version::create(n);
        let mut i: usize = 0;
        proof {
            assert(self.schema.key_len() == backup.schema.key_len()) by {
                assert(self.spec_schema().columns_view().0.len() == self.schema.key@.len());
                assert(backup.spec_schema().columns_view().0.len() == backup.schema.key@.len());
            }
            lemma_rows_map(rv, n as nat);
        }
        assert(rv.subrange(0, 0) =~= Seq::<RowView>::empty());
        while i < rows.len()
            invariant
                n == self.schema.key_len(),
                sorted_rows(rv, n as nat),
                rv == rows_view(rows@),
                i <= rows.len(),
                inserts.wf(),
                inserts.key_len() == n,
                inserts@ == rows_map(rv.subrange(0, i as int), n as nat),
            decreases rows.len() - i,
        {
            assert(rv[i as int] == values_view(rows@[i as int]@));
            assert(rv[i as int].len() >= n);
            let row = clone_values(&rows[i]);
            inserts.insert_row(row);
            assert(rv.subrange(0, i + 1).drop_last() =~= rv.subrange(0, i as int));
            i = i + 1;
        }
        assert(rv.subrange(0, i as int) =~= rv);
        let mut deletes = self.committed_rows(&txn_id);
        deletes.delete_all(&inserts);
        let delta = Delta::from_parts(inserts, deletes);
        let _ = self.take_pending(&txn_id);
        self.put_pending(&txn_id, delta);
        assert(self.pending() =~= old(self).pending().insert(txn_id@, self.pending()[txn_id@]));
        Ok(())
    }
}

} // verus!
