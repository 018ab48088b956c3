//! A version: one ordered index of rows, keyed by their leading columns.

use vstd::prelude::*;

use crate::schema::{range_contains, Range};
use crate::value::{
    clone_values, cmp_prefix, key_cmp, lemma_key_cmp, values_view, Value, ValueView,
};

verus! {

/// The key of a row: its first `n` values.
pub open spec fn key_of(row: Seq<ValueView>, n: nat) -> Seq<ValueView> {
    row.subrange(0, n as int)
}

/// The views of a sequence of rows.
pub open spec fn rows_view(rows: Seq<Vec<Value>>) -> Seq<Seq<ValueView>> {
    rows.map_values(|r: Vec<Value>| values_view(r@))
}

/// Every row holds a key of `n` values, and the keys ascend strictly.
pub open spec fn sorted_rows(rows: Seq<Seq<ValueView>>, n: nat) -> bool {
    &&& forall|i: int| 0 <= i < rows.len() ==> (#[trigger] rows[i]).len() >= n
    &&& forall|i: int, j: int|
        0 <= i < j < rows.len() ==> key_cmp(
            #[trigger] key_of(rows[i], n),
            #[trigger] key_of(rows[j], n),
        ) < 0
}

/// The rows as a map from key to row; a later row replaces an earlier one.
pub open spec fn rows_map(rows: Seq<Seq<ValueView>>, n: nat) -> Map<
    Seq<ValueView>,
    Seq<ValueView>,
>
    decreases rows.len(),
{
    if rows.len() == 0 {
        Map::empty()
    } else {
        rows_map(rows.drop_last(), n).insert(key_of(rows.last(), n), rows.last())
    }
}

/// Each row of `m` lies under its own key.
pub open spec fn keyed(m: Map<Seq<ValueView>, Seq<ValueView>>, n: nat) -> bool {
    forall|k: Seq<ValueView>| #[trigger]
        m.contains_key(k) ==> m[k].len() >= n && key_of(m[k], n) == k
}

/// The rows of `m` whose keys lie in `range`.
pub open spec fn restrict_range(
    m: Map<Seq<ValueView>, Seq<ValueView>>,
    range: Seq<ValueView>,
) -> Map<Seq<ValueView>, Seq<ValueView>> {
    m.restrict(Set::new(|k: Seq<ValueView>| range_contains(range, k)))
}

/// What a map of a sorted sequence of rows holds.
pub proof fn lemma_rows_map(rows: Seq<Seq<ValueView>>, n: nat)
    requires
        sorted_rows(rows, n),
    ensures
        forall|k: Seq<ValueView>| #[trigger]
            rows_map(rows, n).contains_key(k) <==> exists|i: int|
                0 <= i < rows.len() && key_of(rows[i], n) == k,
        forall|i: int|
            0 <= i < rows.len() ==> #[trigger] rows_map(rows, n)[key_of(rows[i], n)] == rows[i],
        keyed(rows_map(rows, n), n),
    decreases rows.len(),
{
    if rows.len() > 0 {
        let p = rows.drop_last();
        assert forall|i: int, j: int| 0 <= i < j < p.len() implies key_cmp(
            #[trigger] key_of(p[i], n),
            #[trigger] key_of(p[j], n),
        ) < 0 by {
            assert(p[i] == rows[i] && p[j] == rows[j]);
        }
        lemma_rows_map(p, n);
        let last = rows.last();
        assert forall|i: int| 0 <= i < rows.len() implies #[trigger] rows_map(rows, n)[key_of(
            rows[i],
            n,
        )] == rows[i] by {
            if i < rows.len() - 1 {
                assert(p[i] == rows[i]);
                lemma_key_cmp(key_of(rows[i], n), key_of(last, n), key_of(last, n));
            }
        }
        assert forall|k: Seq<ValueView>| #[trigger]
            rows_map(rows, n).contains_key(k) implies exists|i: int|
                0 <= i < rows.len() && key_of(rows[i], n) == k by {
            if k != key_of(last, n) {
                let i = choose|i: int| 0 <= i < p.len() && key_of(p[i], n) == k;
                assert(p[i] == rows[i]);
            } else {
                assert(key_of(rows[rows.len() - 1], n) == k);
            }
        }
        assert forall|k: Seq<ValueView>|
            (exists|i: int| 0 <= i < rows.len() && key_of(rows[i], n) == k) implies #[trigger]
            rows_map(rows, n).contains_key(k) by {
            let i = choose|i: int| 0 <= i < rows.len() && key_of(rows[i], n) == k;
            if i < rows.len() - 1 {
                assert(p[i] == rows[i]);
            }
        }
        assert forall|k: Seq<ValueView>| #[trigger]
            rows_map(rows, n).contains_key(k) implies rows_map(rows, n)[k].len() >= n && key_of(
                rows_map(rows, n)[k],
                n,
            ) == k by {
            let i = choose|i: int| 0 <= i < rows.len() && key_of(rows[i], n) == k;
            assert(rows_map(rows, n)[key_of(rows[i], n)] == rows[i]);
        }
    }
}

/// One ordered index of rows: the canonical table, or one side of a delta.
#[derive(Debug)]
pub struct Version {
    key_len: usize,
    rows: Vec<Vec<Value>>,
}

impl View for Version {
    type V = Map<Seq<ValueView>, Seq<ValueView>>;

    closed spec fn view(&self) -> Map<Seq<ValueView>, Seq<ValueView>> {
        rows_map(rows_view(self.rows@), self.key_len as nat)
    }
}

impl Version {
    /// The number of key columns of the rows.
    pub closed spec fn key_len(&self) -> nat {
        self.key_len as nat
    }

    /// The rows in ascending order of key.
    pub closed spec fn ordered(&self) -> Seq<Seq<ValueView>> {
        rows_view(self.rows@)
    }

    pub closed spec fn wf(&self) -> bool {
        sorted_rows(rows_view(self.rows@), self.key_len as nat)
    }

    /// An empty version of rows with `key_len` key columns.
    pub fn create(key_len: usize) -> (r: Version)
        ensures
            r.wf(),
            r.key_len() == key_len,
            r@ == Map::<Seq<ValueView>, Seq<ValueView>>::empty(),
    {
        let r = Version { key_len, rows: Vec::new() };
        assert(rows_view(r.rows@) =~= Seq::<Seq<ValueView>>::empty());
        r
    }

    pub fn key_len_exec(&self) -> (r: usize)
        ensures
            r == self.key_len(),
    {
        self.key_len
    }

    /// The number of rows.
    pub fn len(&self) -> (r: usize)
        requires
            self.wf(),
        ensures
            r == self@.len(),
    {
        proof {
            self.lemma_len();
        }
        self.rows.len()
    }

    proof fn lemma_len(&self)
        requires
            self.wf(),
        ensures
            self.rows@.len() == self@.len(),
    {
        lemma_rows_map(rows_view(self.rows@), self.key_len as nat);
        lemma_rows_map_len(rows_view(self.rows@), self.key_len as nat);
    }

    /// The position of the first row whose key is not below `key`, and
    /// whether its key equals `key`.
    fn search(&self, key: &Vec<Value>) -> (r: (usize, bool))
        requires
            self.wf(),
            key.len() == self.key_len(),
        ensures
            r.0 <= self.rows.len(),
            forall|i: int|
                0 <= i < r.0 ==> key_cmp(
                    key_of(#[trigger] rows_view(self.rows@)[i], self.key_len()),
                    values_view(key@),
                ) < 0,
            r.0 < self.rows.len() ==> key_cmp(
                key_of(rows_view(self.rows@)[r.0 as int], self.key_len()),
                values_view(key@),
            ) >= 0,
            r.1 <==> (r.0 < self.rows.len() && key_of(
                rows_view(self.rows@)[r.0 as int],
                self.key_len(),
            ) == values_view(key@)),
    {
        let ghost n = self.key_len as nat;
        let ghost rv = rows_view(self.rows@);
        let ghost kv = values_view(key@);
        assert(kv.subrange(0, n as int) =~= kv);
        let mut i: usize = 0;
        while i < self.rows.len()
            invariant
                self.wf(),
                n == self.key_len,
                rv == rows_view(self.rows@),
                key.len() == n,
                kv == values_view(key@),
                kv.subrange(0, n as int) == kv,
                i <= self.rows.len(),
                forall|j: int| 0 <= j < i ==> key_cmp(key_of(#[trigger] rv[j], n), kv) < 0,
            decreases self.rows.len() - i,
        {
            assert(values_view(self.rows@[i as int]@) == rv[i as int]);
            assert(rv[i as int].len() >= n);
            let c = cmp_prefix(&self.rows[i], key, self.key_len);
            if c >= 0 {
                proof {
                    lemma_key_cmp(key_of(rv[i as int], n), kv, kv);
                }
                return (i, c == 0);
            }
            i = i + 1;
        }
        (i, false)
    }

    /// The row stored under `key`, if any.
    pub fn get_row(&self, key: &Vec<Value>) -> (r: Option<Vec<Value>>)
        requires
            self.wf(),
            key.len() == self.key_len(),
        ensures
            r is Some <==> self@.contains_key(values_view(key@)),
            r matches Some(row) ==> values_view(row@) == self@[values_view(key@)],
            r matches Some(row) ==> row.len() >= self.key_len() && key_of(
                values_view(row@),
                self.key_len(),
            ) == values_view(key@),
    {
        proof {
            lemma_rows_map(rows_view(self.rows@), self.key_len as nat);
        }
        let (i, found) = self.search(key);
        if found {
            Some(clone_values(&self.rows[i]))
        } else {
            proof {
                self.lemma_search_absent(key, i);
            }
            None
        }
    }

    /// Whether a row is stored under `key`.
    pub fn contains(&self, key: &Vec<Value>) -> (r: bool)
        requires
            self.wf(),
            key.len() == self.key_len(),
        ensures
            r == self@.contains_key(values_view(key@)),
    {
        proof {
            lemma_rows_map(rows_view(self.rows@), self.key_len as nat);
        }
        let (i, found) = self.search(key);
        proof {
            if !found {
                self.lemma_search_absent(key, i);
            }
        }
        found
    }

    proof fn lemma_search_absent(&self, key: &Vec<Value>, i: usize)
        requires
            self.wf(),
            key.len() == self.key_len(),
            i <= self.rows.len(),
            forall|j: int|
                0 <= j < i ==> key_cmp(
                    key_of(#[trigger] rows_view(self.rows@)[j], self.key_len()),
                    values_view(key@),
                ) < 0,
            i < self.rows.len() ==> key_cmp(
                key_of(rows_view(self.rows@)[i as int], self.key_len()),
                values_view(key@),
            ) >= 0,
            !(i < self.rows.len() && key_of(rows_view(self.rows@)[i as int], self.key_len())
                == values_view(key@)),
        ensures
            !self@.contains_key(values_view(key@)),
    {
        let n = self.key_len as nat;
        let rv = rows_view(self.rows@);
        let kv = values_view(key@);
        lemma_rows_map(rv, n);
        if self@.contains_key(kv) {
            let j = choose|j: int| 0 <= j < rv.len() && key_of(rv[j], n) == kv;
            lemma_key_cmp(kv, kv, kv);
            if j > i {
                lemma_key_cmp(key_of(rv[i as int], n), kv, kv);
                lemma_key_cmp(kv, key_of(rv[i as int], n), kv);
            }
        }
    }

    /// Store `row` under its key, replacing any row stored there.
    pub fn insert_row(&mut self, row: Vec<Value>)
        requires
            old(self).wf(),
            row.len() >= old(self).key_len(),
        ensures
            final(self).wf(),
            final(self).key_len() == old(self).key_len(),
            final(self)@ == old(self)@.insert(
                key_of(values_view(row@), old(self).key_len()),
                values_view(row@),
            ),
    {
        let ghost n = self.key_len as nat;
        let ghost old_rows = rows_view(self.rows@);
        let ghost rv = values_view(row@);
        let ghost k = key_of(rv, n);
        let mut key: Vec<Value> = Vec::new();
        let mut j: usize = 0;
        while j < self.key_len
            invariant
                n == self.key_len,
                row.len() >= n,
                j <= n,
                key@ == row@.subrange(0, j as int),
            decreases self.key_len - j,
        {
            key.push(row[j].clone());
            j = j + 1;
        }
        assert(values_view(key@) =~= k);
        let (i, found) = self.search(&key);
        if found {
            self.rows.remove(i);
        }
        self.rows.insert(i, row);
        proof {
            let new_rows = rows_view(self.rows@);
            if found {
                assert(new_rows =~= old_rows.update(i as int, rv));
            } else {
                assert(new_rows =~= old_rows.insert(i as int, rv));
            }
            lemma_insert_sorted(old_rows, i as int, found, rv, n);
        }
    }

    /// Store `values` under `key`.
    pub fn upsert(&mut self, key: Vec<Value>, values: Vec<Value>)
        requires
            old(self).wf(),
            key.len() == old(self).key_len(),
        ensures
            final(self).wf(),
            final(self).key_len() == old(self).key_len(),
            final(self)@ == old(self)@.insert(
                values_view(key@),
                values_view(key@) + values_view(values@),
            ),
    {
        let ghost kv = values_view(key@);
        let ghost vv = values_view(values@);
        let mut row = key;
        let mut values = values;
        row.append(&mut values);
        assert(values_view(row@) =~= kv + vv);
        assert(key_of(kv + vv, self.key_len as nat) =~= kv);
        self.insert_row(row);
    }

    /// Remove the row stored under `key`, if any.
    pub fn delete_row(&mut self, key: &Vec<Value>)
        requires
            old(self).wf(),
            key.len() == old(self).key_len(),
        ensures
            final(self).wf(),
            final(self).key_len() == old(self).key_len(),
            final(self)@ == old(self)@.remove(values_view(key@)),
    {
        let ghost n = self.key_len as nat;
        let ghost old_rows = rows_view(self.rows@);
        let ghost k = values_view(key@);
        proof {
            lemma_rows_map(old_rows, n);
        }
        let (i, found) = self.search(key);
        proof {
            if !found {
                self.lemma_search_absent(key, i);
                assert(self@.remove(k) =~= self@);
            }
        }
        if found {
            self.rows.remove(i);
            proof {
                let new_rows = rows_view(self.rows@);
                assert forall|a: int| 0 <= a < new_rows.len() implies (#[trigger] new_rows[a]).len()
                    >= n by {
                    if a < i {
                        assert(new_rows[a] == old_rows[a]);
                    } else {
                        assert(new_rows[a] == old_rows[a + 1]);
                    }
                }
                assert forall|a: int, b: int| 0 <= a < b < new_rows.len() implies key_cmp(
                    #[trigger] key_of(new_rows[a], n),
                    #[trigger] key_of(new_rows[b], n),
                ) < 0 by {
                    let oa = if a < i {
                        a
                    } else {
                        a + 1
                    };
                    let ob = if b < i {
                        b
                    } else {
                        b + 1
                    };
                    assert(new_rows[a] == old_rows[oa]);
                    assert(new_rows[b] == old_rows[ob]);
                }
                lemma_rows_map(new_rows, n);
                let m_old = rows_map(old_rows, n).remove(k);
                let m_new = rows_map(new_rows, n);
                assert forall|key2: Seq<ValueView>| #[trigger]
                    m_new.contains_key(key2) <==> m_old.contains_key(key2) by {
                    if m_new.contains_key(key2) {
                        let a = choose|a: int|
                            0 <= a < new_rows.len() && key_of(new_rows[a], n) == key2;
                        let oa = if a < i {
                            a
                        } else {
                            a + 1
                        };
                        assert(new_rows[a] == old_rows[oa]);
                        lemma_key_cmp(key_of(old_rows[oa], n), k, k);
                        if oa < i {
                            assert(key_cmp(key_of(old_rows[oa], n), key_of(old_rows[i as int], n))
                                < 0);
                        } else {
                            assert(key_cmp(key_of(old_rows[i as int], n), key_of(old_rows[oa], n))
                                < 0);
                        }
                    }
                    if m_old.contains_key(key2) {
                        let a = choose|a: int|
                            0 <= a < old_rows.len() && key_of(old_rows[a], n) == key2;
                        if a < i {
                            assert(new_rows[a] == old_rows[a]);
                        } else {
                            assert(new_rows[a - 1] == old_rows[a]);
                        }
                    }
                }
                assert forall|key2: Seq<ValueView>| #[trigger]
                    m_new.contains_key(key2) implies m_new[key2] == m_old[key2] by {
                    let a = choose|a: int| 0 <= a < new_rows.len() && key_of(new_rows[a], n) == key2;
                    let oa = if a < i {
                        a
                    } else {
                        a + 1
                    };
                    assert(new_rows[a] == old_rows[oa]);
                }
                assert(m_new =~= m_old);
            }
        }
    }

    /// Remove every row.
    pub fn truncate(&mut self)
        requires
            old(self).wf(),
        ensures
            final(self).wf(),
            final(self).key_len() == old(self).key_len(),
            final(self)@ == Map::<Seq<ValueView>, Seq<ValueView>>::empty(),
    {
        self.rows = Vec::new();
        assert(rows_view(self.rows@) =~= Seq::<Seq<ValueView>>::empty());
    }
}

} // verus!

verus! {

impl Version {
    /// The rows whose keys lie in `range`.
    pub fn slice(&self, range: &Range) -> (r: Version)
        requires
            self.wf(),
        ensures
            r.wf(),
            r.key_len() == self.key_len(),
            r@ == restrict_range(self@, range@),
    {
        let ghost n = self.key_len as nat;
        let ghost rv = rows_view(self.rows@);
        let mut r = Version::create(self.key_len);
        let mut i: usize = 0;
        assert(rv.subrange(0, 0) =~= Seq::<Seq<ValueView>>::empty());
        while i < self.rows.len()
            invariant
                self.wf(),
                rv == rows_view(self.rows@),
                n == self.key_len,
                i <= self.rows.len(),
                r.wf(),
                r.key_len() == n,
                r@ == restrict_range(rows_map(rv.subrange(0, i as int), n), range@),
            decreases self.rows.len() - i,
        {
            let ghost before = rows_map(rv.subrange(0, i as int), n);
            assert(rv.subrange(0, i + 1).drop_last() =~= rv.subrange(0, i as int));
            assert(values_view(self.rows@[i as int]@) == rv[i as int]);
            assert(rv[i as int].len() >= n);
            if range.holds(&self.rows[i], self.key_len) {
                let row = clone_values(&self.rows[i]);
                r.insert_row(row);
                assert(r@ =~= restrict_range(rows_map(rv.subrange(0, i + 1), n), range@));
            } else {
                assert(r@ =~= restrict_range(rows_map(rv.subrange(0, i + 1), n), range@));
            }
            i = i + 1;
        }
        assert(rv.subrange(0, i as int) =~= rv);
        r
    }

    /// Store each row of `other`, replacing rows stored under the same keys.
    pub fn merge(&mut self, other: &Version)
        requires
            old(self).wf(),
            other.wf(),
            other.key_len() == old(self).key_len(),
        ensures
            final(self).wf(),
            final(self).key_len() == old(self).key_len(),
            final(self)@ == old(self)@.union_prefer_right(other@),
    {
        *self = self.merge_join(other);
    }

    /// Remove each row stored under a key of `other`.
    pub fn delete_all(&mut self, other: &Version)
        requires
            old(self).wf(),
            other.wf(),
            other.key_len() == old(self).key_len(),
        ensures
            final(self).wf(),
            final(self).key_len() == old(self).key_len(),
            final(self)@ == old(self)@.remove_keys(other@.dom()),
    {
        *self = self.anti_join(other);
    }

    /// The rows in ascending order of key.
    pub fn to_rows(&self) -> (r: Vec<Vec<Value>>)
        requires
            self.wf(),
        ensures
            rows_view(r@) == self.ordered(),
            sorted_rows(rows_view(r@), self.key_len()),
            rows_map(rows_view(r@), self.key_len()) == self@,
    {
        let mut r: Vec<Vec<Value>> = Vec::with_capacity(self.rows.len());
        let mut i: usize = 0;
        while i < self.rows.len()
            invariant
                i <= self.rows.len(),
                rows_view(r@) == rows_view(self.rows@).subrange(0, i as int),
            decreases self.rows.len() - i,
        {
            let row = clone_values(&self.rows[i]);
            let ghost before = r@;
            assert(rows_view(before).len() == before.len());
            assert(before.len() == i);
            r.push(row);
            assert(r@ == before.push(row));
            assert(r@[i as int]@ == self.rows@[i as int]@);
            assert forall|j: int| 0 <= j <= i implies #[trigger] rows_view(r@)[j] == rows_view(
                self.rows@,
            )[j] by {
                if j < i {
                    assert(r@[j] == before[j]);
                    assert(rows_view(before)[j] == rows_view(self.rows@).subrange(0, i as int)[j]);
                }
            }
            assert(rows_view(r@) =~= rows_view(self.rows@).subrange(0, i + 1));
            i = i + 1;
        }
        assert(rows_view(r@) =~= rows_view(self.rows@));
        r
    }
}

impl Version {
    /// Merge-join: the rows of `self` and of `other` in one pass over both,
    /// in ascending order of key; where both hold a key, the row of `other`.
    pub fn merge_join(&self, other: &Version) -> (r: Version)
        requires
            self.wf(),
            other.wf(),
            other.key_len() == self.key_len(),
        ensures
            r.wf(),
            r.key_len() == self.key_len(),
            r@ == self@.union_prefer_right(other@),
    {
        let n = self.key_len;
        let ghost nn = n as nat;
        let ghost av = rows_view(self.rows@);
        let ghost bv = rows_view(other.rows@);
        let mut out: Vec<Vec<Value>> = Vec::new();
        let mut i: usize = 0;
        let mut j: usize = 0;
        proof {
            lemma_rows_map(av, nn);
            lemma_rows_map(bv, nn);
            assert(av.subrange(0, 0) =~= Seq::<Seq<ValueView>>::empty());
            assert(bv.subrange(0, 0) =~= Seq::<Seq<ValueView>>::empty());
            assert(rows_view(out@) =~= Seq::<Seq<ValueView>>::empty());
            assert(rows_map(Seq::<Seq<ValueView>>::empty(), nn).union_prefer_right(
                rows_map(Seq::<Seq<ValueView>>::empty(), nn),
            ) =~= rows_map(Seq::<Seq<ValueView>>::empty(), nn));
        }
        while i < self.rows.len() || j < other.rows.len()
            invariant
                n == self.key_len,
                nn == n as nat,
                other.key_len == n,
                av == rows_view(self.rows@),
                bv == rows_view(other.rows@),
                sorted_rows(av, nn),
                sorted_rows(bv, nn),
                i <= self.rows.len(),
                j <= other.rows.len(),
                sorted_rows(rows_view(out@), nn),
                rows_map(rows_view(out@), nn) == rows_map(av.subrange(0, i as int), nn).union_prefer_right(
                    rows_map(bv.subrange(0, j as int), nn),
                ),
                forall|x: int|
                    0 <= x < out@.len() ==> (i < self.rows.len() ==> key_cmp(
                        key_of(#[trigger] rows_view(out@)[x], nn),
                        key_of(av[i as int], nn),
                    ) < 0) && (j < other.rows.len() ==> key_cmp(
                        key_of(rows_view(out@)[x], nn),
                        key_of(bv[j as int], nn),
                    ) < 0),
            decreases self.rows.len() - i + other.rows.len() - j,
        {
            let ghost before = rows_view(out@);
            let c: i8 = if i == self.rows.len() {
                1
            } else if j == other.rows.len() {
                -1
            } else {
                assert(av[i as int] == values_view(self.rows@[i as int]@));
                assert(bv[j as int] == values_view(other.rows@[j as int]@));
                assert(av[i as int].len() >= nn && bv[j as int].len() >= nn);
                cmp_prefix(&self.rows[i], &other.rows[j], n)
            };
            if c < 0 {
                assert(av[i as int] == values_view(self.rows@[i as int]@));
                out.push(clone_values(&self.rows[i]));
                proof {
                    let ka = key_of(av[i as int], nn);
                    lemma_join_step(before, av, i as int, bv, j as int, nn, ka, av[i as int]);
                    assert(rows_view(out@) =~= before.push(av[i as int]));
                    lemma_rows_map_push(before, av[i as int], nn);
                    lemma_rows_map_prefix(av, i as int, nn);
                    lemma_rows_map(before, nn);
                    assert(!rows_map(bv.subrange(0, j as int), nn).contains_key(ka)) by {
                        if rows_map(bv.subrange(0, j as int), nn).contains_key(ka) {
                            assert(rows_map(before, nn).contains_key(ka));
                            let x = choose|x: int| 0 <= x < before.len() && key_of(before[x], nn) == ka;
                            lemma_key_cmp(ka, ka, ka);
                        }
                    }
                    assert(rows_map(rows_view(out@), nn) =~= rows_map(av.subrange(0, i + 1), nn).union_prefer_right(
                        rows_map(bv.subrange(0, j as int), nn),
                    ));
                    let now = rows_view(out@);
                    assert forall|x: int| 0 <= x < now.len() implies key_cmp(key_of(#[trigger] now[x], nn), ka) <= 0 by {
                        if x < before.len() {
                            assert(now[x] == before[x]);
                        } else {
                            lemma_key_cmp(ka, ka, ka);
                        }
                    }
                    if i + 1 < self.rows.len() {
                        assert forall|x: int| 0 <= x < now.len() implies key_cmp(key_of(#[trigger] now[x], nn), key_of(av[i + 1], nn)) < 0 by {
                            lemma_key_cmp(key_of(now[x], nn), ka, key_of(av[i + 1], nn));
                            if key_cmp(key_of(now[x], nn), ka) == 0 {
                                lemma_key_cmp(key_of(now[x], nn), ka, ka);
                            }
                        }
                    }
                    if j < other.rows.len() {
                        assert forall|x: int| 0 <= x < now.len() implies key_cmp(key_of(#[trigger] now[x], nn), key_of(bv[j as int], nn)) < 0 by {
                            lemma_key_cmp(key_of(now[x], nn), ka, key_of(bv[j as int], nn));
                            if key_cmp(key_of(now[x], nn), ka) == 0 {
                                lemma_key_cmp(key_of(now[x], nn), ka, ka);
                            }
                        }
                    }
                }
                i = i + 1;
            } else {
                assert(bv[j as int] == values_view(other.rows@[j as int]@));
                out.push(clone_values(&other.rows[j]));
                proof {
                    let kb = key_of(bv[j as int], nn);
                    if c == 0 {
                        lemma_key_cmp(key_of(av[i as int], nn), kb, kb);
                    }
                    lemma_join_step(before, av, i as int, bv, j as int, nn, kb, bv[j as int]);
                    assert(rows_view(out@) =~= before.push(bv[j as int]));
                    lemma_rows_map_push(before, bv[j as int], nn);
                    lemma_rows_map_prefix(bv, j as int, nn);
                    if c == 0 {
                        lemma_rows_map_prefix(av, i as int, nn);
                        assert(rows_map(rows_view(out@), nn) =~= rows_map(av.subrange(0, i + 1), nn).union_prefer_right(
                            rows_map(bv.subrange(0, j + 1), nn),
                        ));
                    } else {
                        assert(rows_map(rows_view(out@), nn) =~= rows_map(av.subrange(0, i as int), nn).union_prefer_right(
                            rows_map(bv.subrange(0, j + 1), nn),
                        ));
                    }
                    let now = rows_view(out@);
                    assert forall|x: int| 0 <= x < now.len() implies key_cmp(key_of(#[trigger] now[x], nn), kb) <= 0 by {
                        if x < before.len() {
                            assert(now[x] == before[x]);
                        } else {
                            lemma_key_cmp(kb, kb, kb);
                        }
                    }
                    let ni: int = if c == 0 { i + 1 } else { i as int };
                    if ni < self.rows.len() {
                        if c != 0 {
                            lemma_key_cmp(key_of(av[i as int], nn), kb, kb);
                        }
                        assert forall|x: int| 0 <= x < now.len() implies key_cmp(key_of(#[trigger] now[x], nn), key_of(av[ni], nn)) < 0 by {
                            if c == 0 {
                                lemma_key_cmp(kb, key_of(av[i as int], nn), key_of(av[ni], nn));
                            }
                            lemma_key_cmp(key_of(now[x], nn), kb, key_of(av[ni], nn));
                            if key_cmp(key_of(now[x], nn), kb) == 0 {
                                lemma_key_cmp(key_of(now[x], nn), kb, kb);
                            }
                        }
                    }
                    if j + 1 < other.rows.len() {
                        assert forall|x: int| 0 <= x < now.len() implies key_cmp(key_of(#[trigger] now[x], nn), key_of(bv[j + 1], nn)) < 0 by {
                            lemma_key_cmp(key_of(now[x], nn), kb, key_of(bv[j + 1], nn));
                            if key_cmp(key_of(now[x], nn), kb) == 0 {
                                lemma_key_cmp(key_of(now[x], nn), kb, kb);
                            }
                        }
                    }
                }
                if c == 0 {
                    i = i + 1;
                }
                j = j + 1;
            }
        }
        proof {
            assert(av.subrange(0, i as int) =~= av);
            assert(bv.subrange(0, j as int) =~= bv);
        }
        Version { key_len: n, rows: out }
    }

    /// Anti-join: the rows of `self` whose keys `other` does not hold, in one
    /// pass over both, in ascending order of key.
    pub fn anti_join(&self, other: &Version) -> (r: Version)
        requires
            self.wf(),
            other.wf(),
            other.key_len() == self.key_len(),
        ensures
            r.wf(),
            r.key_len() == self.key_len(),
            r@ == self@.remove_keys(other@.dom()),
    {
        let n = self.key_len;
        let ghost nn = n as nat;
        let ghost av = rows_view(self.rows@);
        let ghost dv = rows_view(other.rows@);
        let ghost dm = rows_map(dv, nn);
        let mut out: Vec<Vec<Value>> = Vec::new();
        let mut i: usize = 0;
        let mut j: usize = 0;
        proof {
            lemma_rows_map(av, nn);
            lemma_rows_map(dv, nn);
            assert(av.subrange(0, 0) =~= Seq::<Seq<ValueView>>::empty());
            assert(rows_view(out@) =~= Seq::<Seq<ValueView>>::empty());
            assert(rows_map(Seq::<Seq<ValueView>>::empty(), nn).remove_keys(dm.dom()) =~= rows_map(
                Seq::<Seq<ValueView>>::empty(),
                nn,
            ));
        }
        while i < self.rows.len()
            invariant
                n == self.key_len,
                nn == n as nat,
                other.key_len == n,
                av == rows_view(self.rows@),
                dv == rows_view(other.rows@),
                dm == rows_map(dv, nn),
                sorted_rows(av, nn),
                sorted_rows(dv, nn),
                i <= self.rows.len(),
                j <= other.rows.len(),
                sorted_rows(rows_view(out@), nn),
                rows_map(rows_view(out@), nn) == rows_map(av.subrange(0, i as int), nn).remove_keys(dm.dom()),
                forall|x: int|
                    0 <= x < out@.len() ==> (i < self.rows.len() ==> key_cmp(
                        key_of(#[trigger] rows_view(out@)[x], nn),
                        key_of(av[i as int], nn),
                    ) < 0),
                forall|x: int|
                    0 <= x < j ==> (i < self.rows.len() ==> key_cmp(
                        key_of(#[trigger] dv[x], nn),
                        key_of(av[i as int], nn),
                    ) < 0),
            decreases self.rows.len() - i,
        {
            assert(av[i as int] == values_view(self.rows@[i as int]@));
            assert(av[i as int].len() >= nn);
            let mut c: i8 = 1;
            while j < other.rows.len()
                invariant_except_break
                    c == 1,
                invariant
                    n == self.key_len,
                    nn == n as nat,
                    other.key_len == n,
                    av == rows_view(self.rows@),
                    dv == rows_view(other.rows@),
                    sorted_rows(dv, nn),
                    i < self.rows.len(),
                    j <= other.rows.len(),
                    av[i as int].len() >= nn,
                    forall|x: int| 0 <= x < j ==> key_cmp(key_of(#[trigger] dv[x], nn), key_of(av[i as int], nn)) < 0,
                ensures
                    j <= other.rows.len(),
                    forall|x: int| 0 <= x < j ==> key_cmp(key_of(#[trigger] dv[x], nn), key_of(av[i as int], nn)) < 0,
                    c == 1 || c == 0,
                    c == 0 ==> j < other.rows.len() && key_cmp(key_of(dv[j as int], nn), key_of(av[i as int], nn)) == 0,
                    c == 1 ==> j == other.rows.len() || key_cmp(key_of(dv[j as int], nn), key_of(av[i as int], nn)) > 0,
                decreases other.rows.len() - j,
            {
                assert(dv[j as int] == values_view(other.rows@[j as int]@));
                assert(dv[j as int].len() >= nn);
                let d = cmp_prefix(&other.rows[j], &self.rows[i], n);
                proof {
                    lemma_key_cmp(key_of(dv[j as int], nn), key_of(av[i as int], nn), key_of(av[i as int], nn));
                }
                if d < 0 {
                    j = j + 1;
                } else {
                    c = d;
                    break;
                }
            }
            let ghost ka = key_of(av[i as int], nn);
            let ghost before = rows_view(out@);
            proof {
                assert(av.subrange(0, i + 1).drop_last() =~= av.subrange(0, i as int));
                lemma_key_cmp(ka, ka, ka);
            }
            if c == 0 {
                proof {
                    lemma_rows_map(dv, nn);
                    lemma_rows_map_prefix(av, i as int, nn);
                    lemma_key_cmp(key_of(dv[j as int], nn), ka, ka);
                    assert(key_of(dv[j as int], nn) == ka);
                    assert(dm.contains_key(ka));
                    assert(rows_map(rows_view(out@), nn) =~= rows_map(av.subrange(0, i + 1), nn).remove_keys(dm.dom()));
                    if i + 1 < self.rows.len() {
                        assert forall|x: int| 0 <= x < out@.len() implies key_cmp(
                            key_of(#[trigger] rows_view(out@)[x], nn),
                            key_of(av[i + 1], nn),
                        ) < 0 by {
                            lemma_key_cmp(key_of(rows_view(out@)[x], nn), ka, key_of(av[i + 1], nn));
                        }
                        assert forall|x: int| 0 <= x < j implies key_cmp(
                            key_of(#[trigger] dv[x], nn),
                            key_of(av[i + 1], nn),
                        ) < 0 by {
                            lemma_key_cmp(key_of(dv[x], nn), ka, key_of(av[i + 1], nn));
                        }
                    }
                }
            } else {
                out.push(clone_values(&self.rows[i]));
                proof {
                    lemma_rows_map(dv, nn);
                    lemma_rows_map_prefix(av, i as int, nn);
                    assert(rows_view(out@) =~= before.push(av[i as int]));
                    lemma_rows_map_push(before, av[i as int], nn);
                    assert(!dm.contains_key(ka)) by {
                        if dm.contains_key(ka) {
                            let x = choose|x: int| 0 <= x < dv.len() && key_of(dv[x], nn) == ka;
                            if x >= j {
                                if x > j {
                                    lemma_key_cmp(ka, key_of(dv[j as int], nn), key_of(dv[x], nn));
                                }
                                lemma_key_cmp(key_of(dv[j as int], nn), ka, ka);
                            }
                        }
                    }
                    assert(rows_map(rows_view(out@), nn) =~= rows_map(av.subrange(0, i + 1), nn).remove_keys(dm.dom()));
                    lemma_join_step(before, av, i as int, av, i as int, nn, ka, av[i as int]);
                    if i + 1 < self.rows.len() {
                        assert forall|x: int| 0 <= x < j implies key_cmp(
                            key_of(#[trigger] dv[x], nn),
                            key_of(av[i + 1], nn),
                        ) < 0 by {
                            lemma_key_cmp(key_of(dv[x], nn), ka, key_of(av[i + 1], nn));
                        }
                        assert forall|x: int| 0 <= x < out@.len() implies key_cmp(
                            key_of(#[trigger] rows_view(out@)[x], nn),
                            key_of(av[i + 1], nn),
                        ) < 0 by {
                            if x < before.len() {
                                lemma_key_cmp(key_of(before[x], nn), ka, key_of(av[i + 1], nn));
                            }
                        }
                    }
                }
            }
            i = i + 1;
        }
        proof {
            assert(av.subrange(0, i as int) =~= av);
        }
        Version { key_len: n, rows: out }
    }
}

/// The map of a sequence with one more row.
proof fn lemma_rows_map_push(s: Seq<Seq<ValueView>>, r: Seq<ValueView>, n: nat)
    ensures
        rows_map(s.push(r), n) == rows_map(s, n).insert(key_of(r, n), r),
{
    assert(s.push(r).drop_last() =~= s);
}

/// The map of a prefix one row longer.
proof fn lemma_rows_map_prefix(s: Seq<Seq<ValueView>>, i: int, n: nat)
    requires
        0 <= i < s.len(),
    ensures
        rows_map(s.subrange(0, i + 1), n) == rows_map(s.subrange(0, i), n).insert(
            key_of(s[i], n),
            s[i],
        ),
{
    assert(s.subrange(0, i + 1) =~= s.subrange(0, i).push(s[i]));
    lemma_rows_map_push(s.subrange(0, i), s[i], n);
}

/// Every key below `k` lies below each key after `k` in a sorted sequence.
proof fn lemma_below_next(before: Seq<Seq<ValueView>>, k: Seq<ValueView>, s: Seq<Seq<ValueView>>, i: int, n: nat)
    requires
        sorted_rows(s, n),
        0 <= i < s.len(),
        key_cmp(k, key_of(s[i], n)) <= 0,
        forall|x: int| 0 <= x < before.len() ==> key_cmp(key_of(#[trigger] before[x], n), k) < 0,
    ensures
        forall|x: int| 0 <= x < before.len() ==> key_cmp(key_of(#[trigger] before[x], n), key_of(s[i], n)) < 0,
{
    assert forall|x: int| 0 <= x < before.len() implies key_cmp(key_of(#[trigger] before[x], n), key_of(s[i], n)) < 0 by {
        lemma_key_cmp(key_of(before[x], n), k, key_of(s[i], n));
        lemma_key_cmp(k, key_of(s[i], n), k);
        if key_cmp(k, key_of(s[i], n)) == 0 {
            assert(k == key_of(s[i], n));
        }
    }
}

/// Appending a row whose key exceeds every key of a sorted sequence keeps it
/// sorted, and the row's key stays below the next keys of both inputs.
proof fn lemma_join_step(
    before: Seq<Seq<ValueView>>,
    a: Seq<Seq<ValueView>>,
    i: int,
    b: Seq<Seq<ValueView>>,
    j: int,
    n: nat,
    k: Seq<ValueView>,
    row: Seq<ValueView>,
)
    requires
        sorted_rows(before, n),
        sorted_rows(a, n),
        sorted_rows(b, n),
        row.len() >= n,
        k == key_of(row, n),
        0 <= i <= a.len(),
        0 <= j <= b.len(),
        (i < a.len() && key_of(a[i], n) == k) || (j < b.len() && key_of(b[j], n) == k),
        forall|x: int| 0 <= x < before.len() ==> key_cmp(key_of(#[trigger] before[x], n), k) < 0,
    ensures
        sorted_rows(before.push(row), n),
{
    let out = before.push(row);
    assert forall|x: int| 0 <= x < out.len() implies (#[trigger] out[x]).len() >= n by {
        if x < before.len() {
            assert(out[x] == before[x]);
        }
    }
    assert forall|x: int, y: int| 0 <= x < y < out.len() implies key_cmp(
        #[trigger] key_of(out[x], n),
        #[trigger] key_of(out[y], n),
    ) < 0 by {
        assert(out[x] == before[x]);
        if y < before.len() {
            assert(out[y] == before[y]);
        } else {
            assert(out[y] == row);
        }
    }
}

/// The values of `row` after the first `n`.
pub fn values_after(row: &Vec<Value>, n: usize) -> (r: Vec<Value>)
    requires
        n <= row.len(),
    ensures
        values_view(r@) == values_view(row@).subrange(n as int, row@.len() as int),
{
    let mut vals: Vec<Value> = Vec::with_capacity(row.len() - n);
    let mut j: usize = n;
    while j < row.len()
        invariant
            n <= j <= row.len(),
            vals@ == row@.subrange(n as int, j as int),
        decreases row.len() - j,
    {
        vals.push(row[j].clone());
        assert(vals@ =~= row@.subrange(n as int, j + 1));
        j = j + 1;
    }
    assert(values_view(vals@) =~= values_view(row@).subrange(n as int, row@.len() as int));
    vals
}

/// The first `n` values of `row`.
pub fn key_prefix(row: &Vec<Value>, n: usize) -> (r: Vec<Value>)
    requires
        n <= row.len(),
    ensures
        values_view(r@) == values_view(row@).subrange(0, n as int),
        r@ == row@.subrange(0, n as int),
{
    let mut key: Vec<Value> = Vec::with_capacity(n);
    let mut j: usize = 0;
    while j < n
        invariant
            n <= row.len(),
            j <= n,
            key@ == row@.subrange(0, j as int),
        decreases n - j,
    {
        key.push(row[j].clone());
        j = j + 1;
    }
    assert(values_view(key@) =~= values_view(row@).subrange(0, n as int));
    key
}

/// Placing a row at its position in a sorted sequence keeps it sorted and
/// stores the row under its key.
#[verifier::spinoff_prover]
proof fn lemma_insert_sorted(
    old_rows: Seq<Seq<ValueView>>,
    i: int,
    found: bool,
    rv: Seq<ValueView>,
    n: nat,
)
    requires
        sorted_rows(old_rows, n),
        rv.len() >= n,
        0 <= i <= old_rows.len(),
        forall|j: int| 0 <= j < i ==> key_cmp(key_of(#[trigger] old_rows[j], n), key_of(rv, n)) < 0,
        i < old_rows.len() ==> key_cmp(key_of(old_rows[i], n), key_of(rv, n)) >= 0,
        found <==> (i < old_rows.len() && key_of(old_rows[i], n) == key_of(rv, n)),
    ensures
        ({
            let new_rows = if found {
                old_rows.update(i, rv)
            } else {
                old_rows.insert(i, rv)
            };
            sorted_rows(new_rows, n) && rows_map(new_rows, n) == rows_map(old_rows, n).insert(
                key_of(rv, n),
                rv,
            )
        }),
{
    let new_rows = if found {
        old_rows.update(i, rv)
    } else {
        old_rows.insert(i, rv)
    };
    lemma_insert_sorted_order(old_rows, i, found, rv, n);
    let k = key_of(rv, n);
    lemma_rows_map(old_rows, n);
    lemma_rows_map(new_rows, n);
    let m_old = rows_map(old_rows, n).insert(k, rv);
    let m_new = rows_map(new_rows, n);
    lemma_insert_sorted_dom(old_rows, new_rows, i, found, rv, n);
    assert forall|key2: Seq<ValueView>| #[trigger]
        m_new.contains_key(key2) implies m_new[key2] == m_old[key2] by {
        lemma_insert_sorted_value(old_rows, new_rows, i, found, rv, n, key2);
    }
    assert(m_new =~= m_old);
}

#[verifier::spinoff_prover]
proof fn lemma_insert_sorted_dom(
    old_rows: Seq<Seq<ValueView>>,
    new_rows: Seq<Seq<ValueView>>,
    i: int,
    found: bool,
    rv: Seq<ValueView>,
    n: nat,
)
    requires
        sorted_rows(old_rows, n),
        sorted_rows(new_rows, n),
        0 <= i <= old_rows.len(),
        found ==> i < old_rows.len() && key_of(old_rows[i], n) == key_of(rv, n),
        new_rows == if found {
            old_rows.update(i, rv)
        } else {
            old_rows.insert(i, rv)
        },
    ensures
        forall|key2: Seq<ValueView>| #[trigger]
            rows_map(new_rows, n).contains_key(key2) <==> rows_map(old_rows, n).insert(
                key_of(rv, n),
                rv,
            ).contains_key(key2),
{
    let k = key_of(rv, n);
    lemma_rows_map(old_rows, n);
    lemma_rows_map(new_rows, n);
    assert forall|key2: Seq<ValueView>| #[trigger]
        rows_map(new_rows, n).contains_key(key2) <==> rows_map(old_rows, n).insert(k, rv).contains_key(key2) by {
        if rows_map(new_rows, n).contains_key(key2) && key2 != k {
            let a = choose|a: int| 0 <= a < new_rows.len() && key_of(new_rows[a], n) == key2;
            if a < i || found {
                assert(new_rows[a] == old_rows[a]);
            } else {
                assert(new_rows[a] == old_rows[a - 1]);
            }
        }
        if rows_map(old_rows, n).contains_key(key2) && key2 != k {
            let a = choose|a: int| 0 <= a < old_rows.len() && key_of(old_rows[a], n) == key2;
            if a < i || found {
                assert(new_rows[a] == old_rows[a]);
            } else {
                assert(new_rows[a + 1] == old_rows[a]);
            }
        }
        if key2 == k {
            assert(key_of(new_rows[i], n) == k);
        }
    }
}

#[verifier::spinoff_prover]
proof fn lemma_insert_sorted_value(
    old_rows: Seq<Seq<ValueView>>,
    new_rows: Seq<Seq<ValueView>>,
    i: int,
    found: bool,
    rv: Seq<ValueView>,
    n: nat,
    key2: Seq<ValueView>,
)
    requires
        sorted_rows(old_rows, n),
        sorted_rows(new_rows, n),
        0 <= i <= old_rows.len(),
        rv.len() >= n,
        found ==> i < old_rows.len() && key_of(old_rows[i], n) == key_of(rv, n),
        new_rows == if found {
            old_rows.update(i, rv)
        } else {
            old_rows.insert(i, rv)
        },
        rows_map(new_rows, n).contains_key(key2),
    ensures
        rows_map(new_rows, n)[key2] == rows_map(old_rows, n).insert(key_of(rv, n), rv)[key2],
{
    let k = key_of(rv, n);
    lemma_rows_map(old_rows, n);
    lemma_rows_map(new_rows, n);
    let a = choose|a: int| 0 <= a < new_rows.len() && key_of(new_rows[a], n) == key2;
    assert(rows_map(new_rows, n)[key_of(new_rows[a], n)] == new_rows[a]);
    assert(new_rows[i] == rv);
    if a != i {
        if a < i {
            assert(key_cmp(key_of(new_rows[a], n), key_of(new_rows[i], n)) < 0);
        } else {
            assert(key_cmp(key_of(new_rows[i], n), key_of(new_rows[a], n)) < 0);
        }
        lemma_key_cmp(key2, k, key2);
        let oa = if a < i || found {
            a
        } else {
            a - 1
        };
        assert(new_rows[a] == old_rows[oa]);
        assert(rows_map(old_rows, n)[key_of(old_rows[oa], n)] == old_rows[oa]);
    }
}

#[verifier::rlimit(30)]
proof fn lemma_insert_sorted_order(
    old_rows: Seq<Seq<ValueView>>,
    i: int,
    found: bool,
    rv: Seq<ValueView>,
    n: nat,
)
    requires
        sorted_rows(old_rows, n),
        rv.len() >= n,
        0 <= i <= old_rows.len(),
        forall|j: int| 0 <= j < i ==> key_cmp(key_of(#[trigger] old_rows[j], n), key_of(rv, n)) < 0,
        i < old_rows.len() ==> key_cmp(key_of(old_rows[i], n), key_of(rv, n)) >= 0,
        found <==> (i < old_rows.len() && key_of(old_rows[i], n) == key_of(rv, n)),
    ensures
        sorted_rows(
            if found {
                old_rows.update(i, rv)
            } else {
                old_rows.insert(i, rv)
            },
            n,
        ),
{
    let new_rows = if found {
        old_rows.update(i, rv)
    } else {
        old_rows.insert(i, rv)
    };
    let k = key_of(rv, n);
    lemma_key_cmp(k, k, k);
    assert forall|a: int| 0 <= a < new_rows.len() implies (#[trigger] new_rows[a]).len() >= n by {
        if a < i || (found && a != i) {
            assert(new_rows[a] == old_rows[a]);
        } else if a > i {
            assert(new_rows[a] == old_rows[a - 1]);
        }
    }
    assert forall|a: int, b: int| 0 <= a < b < new_rows.len() implies key_cmp(
        #[trigger] key_of(new_rows[a], n),
        #[trigger] key_of(new_rows[b], n),
    ) < 0 by {
        let oa = if a < i || found {
            a
        } else {
            a - 1
        };
        let ob = if b < i || found {
            b
        } else {
            b - 1
        };
        if a != i && b != i {
            assert(new_rows[a] == old_rows[oa]);
            assert(new_rows[b] == old_rows[ob]);
        } else if a == i {
            assert(new_rows[b] == old_rows[ob]);
            assert(new_rows[a] == rv);
            if found {
                lemma_key_cmp(k, key_of(old_rows[i], n), key_of(old_rows[ob], n));
            } else {
                lemma_key_cmp(key_of(old_rows[ob], n), k, k);
                if ob > i {
                    lemma_key_cmp(k, key_of(old_rows[i], n), key_of(old_rows[ob], n));
                    lemma_key_cmp(key_of(old_rows[i], n), k, k);
                }
            }
        } else {
            assert(new_rows[a] == old_rows[oa]);
            assert(new_rows[b] == rv);
        }
    }
}

pub proof fn lemma_rows_map_len(rows: Seq<Seq<ValueView>>, n: nat)
    requires
        sorted_rows(rows, n),
    ensures
        rows_map(rows, n).len() == rows.len(),
        rows_map(rows, n).dom().finite(),
    decreases rows.len(),
{
    if rows.len() > 0 {
        let p = rows.drop_last();
        assert forall|i: int, j: int| 0 <= i < j < p.len() implies key_cmp(
            #[trigger] key_of(p[i], n),
            #[trigger] key_of(p[j], n),
        ) < 0 by {
            assert(p[i] == rows[i] && p[j] == rows[j]);
        }
        lemma_rows_map_len(p, n);
        lemma_rows_map(p, n);
        let last = rows.last();
        if rows_map(p, n).contains_key(key_of(last, n)) {
            let i = choose|i: int| 0 <= i < p.len() && key_of(p[i], n) == key_of(last, n);
            assert(p[i] == rows[i]);
            lemma_key_cmp(key_of(last, n), key_of(last, n), key_of(last, n));
        }
    }
}

} // verus!
