//! The mathematical model of a table's history: layers of changes applied
//! over a canonical map of rows, and transaction identifiers in order.

use vstd::prelude::*;

use crate::txn::txn_rank;
use crate::value::ValueView;

verus! {

/// A key, as values.
pub type KeyView = Seq<ValueView>;

/// A row (its key, then its values), as values.
pub type RowView = Seq<ValueView>;

/// The rows of a version, by key.
pub type Rows = Map<KeyView, RowView>;

/// One layer of change: the rows it inserts and the rows it deletes.
pub type DeltaView = (Rows, Rows);

/// A transaction identifier, as a pair of integers.
pub type IdView = (u128, u16);

/// The row under `k`, if any.
pub open spec fn row_at(m: Rows, k: KeyView) -> Option<RowView> {
    if m.contains_key(k) {
        Some(m[k])
    } else {
        None
    }
}

/// Apply one layer to `m`: its inserts replace, then its deletes remove.
pub open spec fn apply_delta(m: Rows, d: DeltaView) -> Rows {
    m.union_prefer_right(d.0).remove_keys(d.1.dom())
}

/// Apply `layers` to `canon`, oldest first.
pub open spec fn fold_layers(canon: Rows, layers: Seq<DeltaView>) -> Rows
    decreases layers.len(),
{
    if layers.len() == 0 {
        canon
    } else {
        apply_delta(fold_layers(canon, layers.drop_last()), layers.last())
    }
}

/// The row under `k` as the newest layer that mentions `k` has it: absent
/// where that layer deletes it, its row where that layer inserts it, and the
/// row of `canon` where no layer mentions it.
pub open spec fn lookup(canon: Rows, layers: Seq<DeltaView>, k: KeyView) -> Option<RowView>
    decreases layers.len(),
{
    if layers.len() == 0 {
        row_at(canon, k)
    } else if layers.last().1.contains_key(k) {
        None
    } else if layers.last().0.contains_key(k) {
        Some(layers.last().0[k])
    } else {
        lookup(canon, layers.drop_last(), k)
    }
}

/// Whether the identifiers ascend strictly.
pub open spec fn ascending(q: Seq<IdView>) -> bool {
    forall|i: int, j: int| 0 <= i < j < q.len() ==> txn_rank(#[trigger] q[i]) < txn_rank(#[trigger] q[j])
}

/// The identifiers of `s`, in ascending order.
pub open spec fn ascending_ids(s: Set<IdView>) -> Seq<IdView> {
    choose|q: Seq<IdView>| ascending(q) && forall|id: IdView| q.contains(id) <==> s.contains(id)
}

/// The identifiers of `s` that are not after `t`.
pub open spec fn ids_upto(s: Set<IdView>, t: IdView) -> Set<IdView> {
    s.filter(|id: IdView| txn_rank(id) <= txn_rank(t))
}

/// The layers stored under `ids`, in that order.
pub open spec fn layers_of<D: View<V = DeltaView>>(ids: Seq<IdView>, deltas: Map<IdView, D>) -> Seq<
    DeltaView,
> {
    ids.map_values(|id: IdView| deltas[id]@)
}

/// Two identifiers with the same rank are the same.
pub proof fn lemma_rank_injective(a: IdView, b: IdView)
    ensures
        txn_rank(a) == txn_rank(b) <==> a == b,
{
    let (a0, a1) = (a.0 as int, a.1 as int);
    let (b0, b1) = (b.0 as int, b.1 as int);
    if txn_rank(a) == txn_rank(b) {
        assert(a0 == b0 && a1 == b1) by (nonlinear_arith)
            requires
                a0 * 65536 + a1 == b0 * 65536 + b1,
                0 <= a1 < 65536,
                0 <= b1 < 65536,
        ;
    }
}

/// An ascending sequence is fixed by its members.
pub proof fn lemma_ascending_unique(q1: Seq<IdView>, q2: Seq<IdView>)
    requires
        ascending(q1),
        ascending(q2),
        forall|id: IdView| q1.contains(id) <==> q2.contains(id),
    ensures
        q1 == q2,
    decreases q1.len() + q2.len(),
{
    if q1.len() == 0 && q2.len() == 0 {
        assert(q1 =~= q2);
    } else if q1.len() == 0 {
        assert(q2.contains(q2[0]));
    } else if q2.len() == 0 {
        assert(q1.contains(q1[0]));
    } else {
        let l1 = q1.last();
        let l2 = q2.last();
        assert(q1.contains(l1));
        assert(q2.contains(l2));
        let i2 = choose|i: int| 0 <= i < q2.len() && q2[i] == l1;
        let i1 = choose|i: int| 0 <= i < q1.len() && q1[i] == l2;
        if i2 < q2.len() - 1 {
            assert(txn_rank(q2[i2]) < txn_rank(q2[q2.len() - 1]));
        }
        if i1 < q1.len() - 1 {
            assert(txn_rank(q1[i1]) < txn_rank(q1[q1.len() - 1]));
        }
        lemma_rank_injective(l1, l2);
        let front1 = q1.drop_last();
        let front2 = q2.drop_last();
        assert forall|id: IdView| front1.contains(id) <==> front2.contains(id) by {
            if front1.contains(id) {
                let a = choose|a: int| 0 <= a < front1.len() && front1[a] == id;
                assert(q1[a] == id);
                assert(txn_rank(q1[a]) < txn_rank(l1));
                assert(q2.contains(id));
                let b = choose|b: int| 0 <= b < q2.len() && q2[b] == id;
                if b == q2.len() - 1 {
                    assert(false);
                }
                assert(front2[b] == id);
            }
            if front2.contains(id) {
                let a = choose|a: int| 0 <= a < front2.len() && front2[a] == id;
                assert(q2[a] == id);
                assert(txn_rank(q2[a]) < txn_rank(l2));
                assert(q1.contains(id));
                let b = choose|b: int| 0 <= b < q1.len() && q1[b] == id;
                if b == q1.len() - 1 {
                    assert(false);
                }
                assert(front1[b] == id);
            }
        }
        lemma_ascending_unique(front1, front2);
        assert(q1 =~= front1.push(l1));
        assert(q2 =~= front2.push(l2));
    }
}

/// Where an ascending sequence of the members of `s` exists, it is
/// [`ascending_ids`]`(s)`.
pub proof fn lemma_ascending_ids(q: Seq<IdView>, s: Set<IdView>)
    requires
        ascending(q),
        forall|id: IdView| q.contains(id) <==> s.contains(id),
    ensures
        ascending_ids(s) == q,
{
    let r = ascending_ids(s);
    assert(ascending(r) && forall|id: IdView| r.contains(id) <==> s.contains(id));
    lemma_ascending_unique(r, q);
}

/// Applying `a` then `b` is applying `a + b`.
pub proof fn lemma_fold_concat(canon: Rows, a: Seq<DeltaView>, b: Seq<DeltaView>)
    ensures
        fold_layers(canon, a + b) == fold_layers(fold_layers(canon, a), b),
    decreases b.len(),
{
    if b.len() == 0 {
        assert(a + b =~= a);
    } else {
        assert((a + b).drop_last() =~= a + b.drop_last());
        lemma_fold_concat(canon, a, b.drop_last());
    }
}

/// Newest wins: the row that the layers leave under `k` is the one the newest
/// layer that mentions `k` gives it.
pub proof fn lemma_fold_lookup(canon: Rows, layers: Seq<DeltaView>, k: KeyView)
    ensures
        row_at(fold_layers(canon, layers), k) == lookup(canon, layers, k),
    decreases layers.len(),
{
    if layers.len() > 0 {
        lemma_fold_lookup(canon, layers.drop_last(), k);
    }
}

/// One more element of a sequence's prefix.
pub proof fn lemma_prefix_push<A>(q: Seq<A>, i: int)
    requires
        0 <= i < q.len(),
    ensures
        forall|x: A|
            q.subrange(0, i + 1).contains(x) <==> (q.subrange(0, i).contains(x) || x == q[i]),
{
    let a = q.subrange(0, i);
    let b = q.subrange(0, i + 1);
    assert(b =~= a.push(q[i]));
    assert forall|x: A| b.contains(x) <==> (a.contains(x) || x == q[i]) by {
        if b.contains(x) {
            let j = choose|j: int| 0 <= j < b.len() && b[j] == x;
            if j < i {
                assert(a[j] == x);
            }
        }
        if a.contains(x) {
            let j = choose|j: int| 0 <= j < a.len() && a[j] == x;
            assert(b[j] == x);
        }
        if x == q[i] {
            assert(b[i] == x);
        }
    }
}

/// A finite, non-empty set of identifiers has a greatest one.
pub proof fn lemma_max_exists(s: Set<IdView>)
    requires
        s.finite(),
        s.len() > 0,
    ensures
        exists|m: IdView| s.contains(m) && forall|x: IdView| s.contains(x) ==> txn_rank(x) <= txn_rank(m),
    decreases s.len(),
{
    let a = s.choose();
    let rest = s.remove(a);
    if rest.len() == 0 {
        assert forall|x: IdView| s.contains(x) implies txn_rank(x) <= txn_rank(a) by {
            if x != a {
                assert(rest.contains(x));
            }
        }
    } else {
        lemma_max_exists(rest);
        let m = choose|m: IdView| rest.contains(m) && forall|x: IdView| rest.contains(x) ==> txn_rank(x) <= txn_rank(m);
        if txn_rank(a) <= txn_rank(m) {
            assert forall|x: IdView| s.contains(x) implies txn_rank(x) <= txn_rank(m) by {
                if x != a {
                    assert(rest.contains(x));
                }
            }
        } else {
            assert forall|x: IdView| s.contains(x) implies txn_rank(x) <= txn_rank(a) by {
                if x != a {
                    assert(rest.contains(x));
                }
            }
        }
    }
}

/// A finite set of identifiers has an ascending enumeration, which is
/// therefore [`ascending_ids`] of it.
pub proof fn lemma_ascending_ids_finite(s: Set<IdView>)
    requires
        s.finite(),
    ensures
        ascending(ascending_ids(s)),
        forall|id: IdView| ascending_ids(s).contains(id) <==> s.contains(id),
    decreases s.len(),
{
    if s.len() == 0 {
        let q = Seq::<IdView>::empty();
        assert forall|id: IdView| q.contains(id) <==> s.contains(id) by {
            if s.contains(id) {
                assert(s.len() != 0);
            }
        }
        lemma_ascending_ids(q, s);
    } else {
        lemma_max_exists(s);
        let m = choose|m: IdView| s.contains(m) && forall|x: IdView| s.contains(x) ==> txn_rank(x) <= txn_rank(m);
        let rest = s.remove(m);
        lemma_ascending_ids_finite(rest);
        let p = ascending_ids(rest);
        let q = p.push(m);
        assert forall|i: int, j: int| 0 <= i < j < q.len() implies txn_rank(#[trigger] q[i]) < txn_rank(#[trigger] q[j]) by {
            if j == q.len() - 1 {
                assert(p.contains(q[i]));
                assert(rest.contains(q[i]));
                lemma_rank_injective(q[i], m);
            } else {
                assert(q[i] == p[i] && q[j] == p[j]);
            }
        }
        assert forall|id: IdView| q.contains(id) <==> s.contains(id) by {
            if q.contains(id) {
                let i = choose|i: int| 0 <= i < q.len() && q[i] == id;
                if i < p.len() {
                    assert(p[i] == id);
                    assert(p.contains(id));
                }
            }
            if s.contains(id) {
                if id == m {
                    assert(q[q.len() - 1] == id);
                } else {
                    assert(rest.contains(id));
                    let i = choose|i: int| 0 <= i < p.len() && p[i] == id;
                    assert(q[i] == id);
                }
            }
        }
        lemma_ascending_ids(q, s);
    }
}

/// An ascending sequence holds each of its members once.
pub proof fn lemma_ascending_len(q: Seq<IdView>)
    requires
        ascending(q),
    ensures
        q.no_duplicates(),
        q.to_set().len() == q.len(),
{
    assert forall|i: int, j: int| 0 <= i < q.len() && 0 <= j < q.len() && i != j implies q[i]
        != q[j] by {
        if i < j {
            assert(txn_rank(q[i]) < txn_rank(q[j]));
        } else {
            assert(txn_rank(q[j]) < txn_rank(q[i]));
        }
    }
    q.unique_seq_to_set();
}

} // verus!
