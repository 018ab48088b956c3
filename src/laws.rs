//! Laws that relate the operations of a table.

use vstd::prelude::*;

use crate::model::{
    apply_delta, ascending, ascending_ids, fold_layers, ids_upto, layers_of,
    lemma_ascending_ids, lemma_ascending_ids_finite, lemma_fold_concat,
    lookup, DeltaView, IdView, KeyView, RowView, Rows,
};
use crate::table::{at_or_before, delta_or_empty, TableFile};
use crate::txn::txn_rank;

verus! {

/// Whether the layer `d` inserts or deletes a row under `k`.
pub open spec fn mentions(d: DeltaView, k: KeyView) -> bool {
    d.0.contains_key(k) || d.1.contains_key(k)
}

/// The committed layers visible at `t` are those of the ascending
/// identifiers not after `t`; each of them is committed.
proof fn lemma_committed_ids(tbl: TableFile, t: IdView)
    requires
        tbl.wf(),
    ensures
        ascending(ascending_ids(ids_upto(tbl.committed().dom(), t))),
        forall|id: IdView|
            ascending_ids(ids_upto(tbl.committed().dom(), t)).contains(id) <==> (
            tbl.committed().contains_key(id) && txn_rank(id) <= txn_rank(t)),
{
    tbl.lemma_finite();
    lemma_ascending_ids_finite(ids_upto(tbl.committed().dom(), t));
}

/// Snapshot isolation: a change to the committed deltas of a transaction
/// `t2` (its commit) changes nothing that an earlier transaction `t1` sees.
pub proof fn lemma_commit_invisible_to_earlier(
    before: TableFile,
    after: TableFile,
    t2: IdView,
    t1: IdView,
)
    requires
        before.wf(),
        after.wf(),
        txn_rank(t1) < txn_rank(t2),
        after.canon_rows() == before.canon_rows(),
        after.committed().remove(t2) == before.committed().remove(t2),
        after.pending().contains_key(t1) == before.pending().contains_key(t1),
        before.pending().contains_key(t1) ==> after.pending()[t1] == before.pending()[t1],
    ensures
        after.snapshot(t1) == before.snapshot(t1),
{
    let sa = ids_upto(after.committed().dom(), t1);
    let sb = ids_upto(before.committed().dom(), t1);
    assert forall|id: IdView| sa.contains(id) <==> sb.contains(id) by {
        if id != t2 {
            assert(after.committed().remove(t2).contains_key(id) == after.committed().contains_key(
                id,
            ));
            assert(before.committed().remove(t2).contains_key(id)
                == before.committed().contains_key(id));
        }
    }
    assert(sa =~= sb);
    lemma_committed_ids(before, t1);
    let ids = ascending_ids(sb);
    assert forall|i: int| 0 <= i < ids.len() implies after.committed()[#[trigger] ids[i]]
        == before.committed()[ids[i]] by {
        let x = ids[i];
        assert(ids.contains(x));
        assert(before.committed().contains_key(x));
        assert(x != t2);
        assert(before.committed().remove(t2).contains_key(x));
        assert(after.committed().remove(t2).contains_key(x));
        assert(after.committed().remove(t2)[x] == after.committed()[x]);
        assert(before.committed().remove(t2)[x] == before.committed()[x]);
    }
    assert(after.committed_layers(t1) =~= before.committed_layers(t1));
}

/// Finalizing at `t` changes nothing that a later transaction `u` sees: the
/// folded canonical version with the remaining deltas gives the same rows.
pub proof fn lemma_finalize_preserves_later_snapshots(
    before: TableFile,
    after: TableFile,
    t: IdView,
    u: IdView,
)
    requires
        before.wf(),
        after.wf(),
        txn_rank(t) < txn_rank(u),
        after.canon_rows() == fold_layers(before.canon_rows(), before.committed_layers(t)),
        after.committed() == before.committed().remove_keys(
            ids_upto(before.committed().dom(), t),
        ),
        after.pending() == before.pending().remove_keys(ids_upto(before.pending().dom(), t)),
    ensures
        after.snapshot(u) == before.snapshot(u),
{
    let d = before.committed();
    let a = ascending_ids(ids_upto(d.dom(), t));
    let all = ascending_ids(ids_upto(d.dom(), u));
    let b = ascending_ids(ids_upto(after.committed().dom(), u));
    lemma_committed_ids(before, t);
    lemma_committed_ids(before, u);
    lemma_committed_ids(after, u);
    let ab = a + b;
    assert forall|i: int, j: int| 0 <= i < j < ab.len() implies txn_rank(#[trigger] ab[i])
        < txn_rank(#[trigger] ab[j]) by {
        if j < a.len() {
            assert(ab[i] == a[i] && ab[j] == a[j]);
        } else if i >= a.len() {
            assert(ab[i] == b[i - a.len()] && ab[j] == b[j - a.len()]);
        } else {
            assert(ab[i] == a[i] && ab[j] == b[j - a.len()]);
            assert(a.contains(a[i]));
            assert(b.contains(b[j - a.len()]));
        }
    }
    assert forall|id: IdView| ab.contains(id) <==> ids_upto(d.dom(), u).contains(id) by {
        if ab.contains(id) {
            let i = choose|i: int| 0 <= i < ab.len() && ab[i] == id;
            if i < a.len() {
                assert(a[i] == id);
                assert(a.contains(id));
            } else {
                assert(b[i - a.len()] == id);
                assert(b.contains(id));
            }
        }
        if ids_upto(d.dom(), u).contains(id) {
            if txn_rank(id) <= txn_rank(t) {
                assert(a.contains(id));
                let i = choose|i: int| 0 <= i < a.len() && a[i] == id;
                assert(ab[i] == id);
            } else {
                assert(after.committed().contains_key(id));
                assert(b.contains(id));
                let i = choose|i: int| 0 <= i < b.len() && b[i] == id;
                assert(ab[i + a.len()] == id);
            }
        }
    }
    lemma_ascending_ids(ab, ids_upto(d.dom(), u));
    assert(layers_of(all, d) =~= layers_of(a, d) + layers_of(b, after.committed())) by {
        assert forall|i: int| 0 <= i < b.len() implies d[#[trigger] b[i]] == after.committed()[b[i]] by {
            assert(b.contains(b[i]));
        }
    }
    lemma_fold_concat(before.canon_rows(), layers_of(a, d), layers_of(b, after.committed()));
    assert(fold_layers(before.canon_rows(), before.committed_layers(u)) == fold_layers(
        after.canon_rows(),
        after.committed_layers(u),
    ));
    let cb = before.committed_layers(u);
    let ca = after.committed_layers(u);
    if before.pending().contains_key(u) {
        assert(!ids_upto(before.pending().dom(), t).contains(u));
        assert(after.pending().contains_key(u));
        assert(after.pending()[u] == before.pending()[u]);
        let pu = before.pending()[u]@;
        assert(cb.push(pu).drop_last() =~= cb);
        assert(ca.push(pu).drop_last() =~= ca);
        assert(before.snapshot(u) == apply_delta(fold_layers(before.canon_rows(), cb), pu));
        assert(after.snapshot(u) == apply_delta(fold_layers(after.canon_rows(), ca), pu));
    } else {
        assert(!after.pending().contains_key(u));
    }
}

/// A transaction reads back what it wrote: after an upsert of `k` at `t`,
/// whatever `t` did to `k` before, `t` sees the new row under `k`, and its
/// pending delta no longer deletes `k`.
pub proof fn lemma_read_own_upsert(
    before: TableFile,
    after: TableFile,
    t: IdView,
    k: KeyView,
    row: RowView,
)
    requires
        before.pending_becomes(
            &after,
            t,
            ({
                let p = delta_or_empty(before.pending(), t);
                (p.0.insert(k, row), p.1.remove(k))
            }),
        ),
    ensures
        lookup(after.canon_rows(), after.layers_at(t), k) == Some(row),
        !after.pending()[t]@.1.contains_key(k),
{
}

/// What a transaction commits, a later one sees: where the committed delta
/// of `t` inserts `row` under `k`, and no layer after `t` that `t2` sees
/// mentions `k`, `t2` sees `row`.
pub proof fn lemma_committed_row_visible(
    tbl: TableFile,
    t: IdView,
    t2: IdView,
    k: KeyView,
    row: RowView,
)
    requires
        tbl.wf(),
        txn_rank(t) < txn_rank(t2),
        tbl.committed().contains_key(t),
        tbl.committed()[t]@.0.contains_key(k),
        tbl.committed()[t]@.0[k] == row,
        !tbl.committed()[t]@.1.contains_key(k),
        forall|id: IdView| #[trigger]
            tbl.committed().contains_key(id) && txn_rank(t) < txn_rank(id) <= txn_rank(t2)
                ==> !mentions(tbl.committed()[id]@, k),
        tbl.pending().contains_key(t2) ==> !mentions(tbl.pending()[t2]@, k),
    ensures
        lookup(tbl.canon_rows(), tbl.layers_at(t2), k) == Some(row),
{
    lemma_committed_ids(tbl, t2);
    let ids = ascending_ids(ids_upto(tbl.committed().dom(), t2));
    assert(ids.contains(t));
    lemma_lookup_from(tbl, ids, t, t2, k, row);
    if tbl.pending().contains_key(t2) {
        assert(tbl.layers_at(t2).drop_last() == tbl.committed_layers(t2));
    }
}

proof fn lemma_lookup_from(
    tbl: TableFile,
    ids: Seq<IdView>,
    t: IdView,
    t2: IdView,
    k: KeyView,
    row: RowView,
)
    requires
        ascending(ids),
        ids.contains(t),
        forall|i: int| 0 <= i < ids.len() ==> tbl.committed().contains_key(#[trigger] ids[i]) && txn_rank(ids[i]) <= txn_rank(t2),
        tbl.committed()[t]@.0.contains_key(k),
        tbl.committed()[t]@.0[k] == row,
        !tbl.committed()[t]@.1.contains_key(k),
        forall|id: IdView| #[trigger]
            tbl.committed().contains_key(id) && txn_rank(t) < txn_rank(id) <= txn_rank(t2)
                ==> !mentions(tbl.committed()[id]@, k),
    ensures
        lookup(tbl.canon_rows(), layers_of(ids, tbl.committed()), k) == Some(row),
    decreases ids.len(),
{
    let layers = layers_of(ids, tbl.committed());
    let last = ids.last();
    let p = ids.drop_last();
    assert(layers.drop_last() =~= layers_of(p, tbl.committed()));
    assert(tbl.committed().contains_key(ids[ids.len() - 1]));
    if last != t {
        let i = choose|i: int| 0 <= i < ids.len() && ids[i] == t;
        assert(i < ids.len() - 1);
        assert(txn_rank(ids[i]) < txn_rank(ids[ids.len() - 1]));
        assert(!mentions(tbl.committed()[last]@, k));
        assert(p[i] == t);
        assert(ascending(p)) by {
            assert forall|a: int, b: int| 0 <= a < b < p.len() implies txn_rank(#[trigger] p[a])
                < txn_rank(#[trigger] p[b]) by {
                assert(p[a] == ids[a] && p[b] == ids[b]);
            }
        }
        assert forall|a: int| 0 <= a < p.len() implies tbl.committed().contains_key(#[trigger] p[a])
            && txn_rank(p[a]) <= txn_rank(t2) by {
            assert(p[a] == ids[a]);
        }
        lemma_lookup_from(tbl, p, t, t2, k, row);
    }
}

/// Finalizing is idempotent: once `t` is finalized, finalizing at `t` or
/// at any earlier transaction is a no-op.
pub proof fn lemma_finalize_idempotent(tbl: TableFile, t: IdView, t_earlier: IdView)
    requires
        tbl.finalized() == Some(t),
        txn_rank(t_earlier) <= txn_rank(t),
    ensures
        at_or_before(t_earlier, tbl.finalized()),
        at_or_before(t, tbl.finalized()),
{
}

/// Restoring from a backup makes a transaction see exactly the rows it sees
/// in the backup.
pub proof fn lemma_restore_snapshot(before: TableFile, after: TableFile, t: IdView, b: Rows)
    requires
        before.pending_becomes(
            &after,
            t,
            (b, fold_layers(before.canon_rows(), before.committed_layers(t)).remove_keys(b.dom())),
        ),
    ensures
        after.snapshot(t) == b,
{
    let v = fold_layers(before.canon_rows(), before.committed_layers(t));
    let layers = after.layers_at(t);
    assert(layers.drop_last() =~= after.committed_layers(t));
    assert(apply_delta(v, (b, v.remove_keys(b.dom()))) =~= b);
}

} // verus!
