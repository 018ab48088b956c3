//! Table schemas and key ranges.

use vstd::prelude::*;

use crate::error::{bad_request, Code, TCResult};
use crate::version::{key_prefix, values_after};
use crate::value::{
    clone_values, cmp_prefix, lemma_key_cmp, values_view, Value, ValueType, ValueView,
};

verus! {

/// A named, typed column.
#[derive(Debug)]
pub struct Column {
    pub name: String,
    pub dtype: ValueType,
}

/// The columns of a table: the key columns, then the value columns.
#[derive(Debug)]
pub struct TableSchema {
    pub key: Vec<Column>,
    pub values: Vec<Column>,
}

/// Whether `vals` has one value of the right type for each of `columns`.
pub open spec fn matches_columns(columns: Seq<Column>, vals: Seq<ValueView>) -> bool {
    &&& vals.len() == columns.len()
    &&& forall|i: int| 0 <= i < vals.len() ==> (#[trigger] columns[i]).dtype.accepts(vals[i])
}

fn check_columns(columns: &Vec<Column>, vals: &Vec<Value>) -> (r: bool)
    ensures
        r == matches_columns(columns@, values_view(vals@)),
{
    if vals.len() != columns.len() {
        return false;
    }
    let mut i: usize = 0;
    while i < vals.len()
        invariant
            vals.len() == columns.len(),
            i <= vals.len(),
            forall|j: int| 0 <= j < i ==> (#[trigger] columns@[j]).dtype.accepts(vals@[j]@),
        decreases vals.len() - i,
    {
        if !columns[i].dtype.admits(&vals[i]) {
            return false;
        }
        i = i + 1;
    }
    true
}

fn same_column_list(a: &Vec<Column>, b: &Vec<Column>) -> (r: bool)
    ensures
        r == (a@.map_values(|c: Column| (c.name@, c.dtype)) == b@.map_values(
            |c: Column| (c.name@, c.dtype),
        )),
{
    let ghost va = a@.map_values(|c: Column| (c.name@, c.dtype));
    let ghost vb = b@.map_values(|c: Column| (c.name@, c.dtype));
    if a.len() != b.len() {
        assert(va.len() != vb.len());
        return false;
    }
    let mut i: usize = 0;
    while i < a.len()
        invariant
            a.len() == b.len(),
            i <= a.len(),
            va == a@.map_values(|c: Column| (c.name@, c.dtype)),
            vb == b@.map_values(|c: Column| (c.name@, c.dtype)),
            forall|j: int| 0 <= j < i ==> va[j] == vb[j],
        decreases a.len() - i,
    {
        if a[i].name != b[i].name || a[i].dtype != b[i].dtype {
            assert(va[i as int] != vb[i as int]);
            return false;
        }
        i = i + 1;
    }
    assert(va =~= vb);
    true
}

impl TableSchema {
    pub fn new(key: Vec<Column>, values: Vec<Column>) -> (r: TableSchema)
        ensures
            r.key == key,
            r.values == values,
    {
        TableSchema { key, values }
    }

    /// The number of key columns.
    pub open spec fn key_len(&self) -> nat {
        self.key@.len()
    }

    /// The number of columns of a row.
    pub open spec fn row_len(&self) -> nat {
        self.key@.len() + self.values@.len()
    }

    pub open spec fn valid_key(&self, key: Seq<ValueView>) -> bool {
        matches_columns(self.key@, key)
    }

    pub open spec fn valid_values(&self, vals: Seq<ValueView>) -> bool {
        matches_columns(self.values@, vals)
    }

    /// Whether `row` is a key followed by values, each of the right type.
    pub open spec fn valid_row(&self, row: Seq<ValueView>) -> bool {
        &&& row.len() == self.row_len()
        &&& self.valid_key(row.subrange(0, self.key_len() as int))
        &&& self.valid_values(row.subrange(self.key_len() as int, row.len() as int))
    }

    /// The names and types of the key columns, then those of the value columns.
    pub open spec fn columns_view(&self) -> (Seq<(Seq<char>, ValueType)>, Seq<(Seq<char>, ValueType)>) {
        (
            self.key@.map_values(|c: Column| (c.name@, c.dtype)),
            self.values@.map_values(|c: Column| (c.name@, c.dtype)),
        )
    }

    /// Whether `other` has the same columns, by name and type.
    pub fn same_columns(&self, other: &TableSchema) -> (r: bool)
        ensures
            r == (self.columns_view() == other.columns_view()),
    {
        same_column_list(&self.key, &other.key) && same_column_list(&self.values, &other.values)
    }

    /// Check that `row` is a key followed by values, each of the right type.
    pub fn row_fits(&self, row: &Vec<Value>) -> (r: bool)
        ensures
            r == self.valid_row(values_view(row@)),
    {
        let n = self.key.len();
        if row.len() < n || row.len() - n != self.values.len() {
            return false;
        }
        let key = key_prefix(row, n);
        let vals = values_after(row, n);
        check_columns(&self.key, &key) && check_columns(&self.values, &vals)
    }

    /// Check that `key` supplies each key column with a value of its type.
    pub fn validate_key(&self, key: Vec<Value>) -> (r: TCResult<Vec<Value>>)
        ensures
            r is Ok <==> self.valid_key(values_view(key@)),
            r matches Ok(k) ==> k == key,
            r matches Err(e) ==> e.code() == Code::BadRequest,
    {
        if check_columns(&self.key, &key) {
            Ok(key)
        } else {
            Err(bad_request("invalid key", "the key does not match the key columns of the schema"))
        }
    }

    /// Check that `vals` supplies each value column with a value of its type.
    pub fn validate_values(&self, vals: Vec<Value>) -> (r: TCResult<Vec<Value>>)
        ensures
            r is Ok <==> self.valid_values(values_view(vals@)),
            r matches Ok(v) ==> v == vals,
            r matches Err(e) ==> e.code() == Code::BadRequest,
    {
        if check_columns(&self.values, &vals) {
            Ok(vals)
        } else {
            Err(
                bad_request(
                    "invalid values",
                    "the values do not match the value columns of the schema",
                ),
            )
        }
    }

    /// The range that holds exactly the given key.
    pub fn range_from_key(&self, key: &Vec<Value>) -> (r: Range)
        ensures
            r@ == values_view(key@),
    {
        Range { prefix: clone_values(key) }
    }
}

/// The value that the last assignment to the column `name` gives it, if any.
pub open spec fn assigned(values: Seq<(String, Value)>, name: Seq<char>) -> Option<ValueView>
    decreases values.len(),
{
    if values.len() == 0 {
        None
    } else if values.last().0@ == name {
        Some(values.last().1@)
    } else {
        assigned(values.drop_last(), name)
    }
}

impl TableSchema {
    /// Whether each assignment names a value column and fits its type.
    pub open spec fn valid_assignments(&self, values: Seq<(String, Value)>) -> bool {
        forall|j: int| 0 <= j < values.len() ==> self.assigns(#[trigger] values[j])
    }

    /// Whether the assignment names a value column and fits its type.
    pub open spec fn assigns(&self, a: (String, Value)) -> bool {
        exists|c: int|
            0 <= c < self.values@.len() && (#[trigger] self.values@[c]).name@ == a.0@
                && self.values@[c].dtype.accepts(a.1@)
    }

    /// `row` with each value column that `values` assigns set to its value.
    pub open spec fn updated_row(&self, row: Seq<ValueView>, values: Seq<(String, Value)>) -> Seq<
        ValueView,
    > {
        Seq::new(
            row.len(),
            |j: int|
                if self.key@.len() <= j < self.key@.len() + self.values@.len() && assigned(
                    values,
                    self.values@[j - self.key@.len()].name@,
                ) is Some {
                    assigned(values, self.values@[j - self.key@.len()].name@).unwrap()
                } else {
                    row[j]
                },
        )
    }

    /// Check that each assignment names a value column and fits its type.
    pub fn check_assignments(&self, values: &Vec<(String, Value)>) -> (r: bool)
        ensures
            r == self.valid_assignments(values@),
    {
        let mut j: usize = 0;
        while j < values.len()
            invariant
                j <= values.len(),
                forall|a: int| 0 <= a < j ==> self.assigns(#[trigger] values@[a]),
            decreases values.len() - j,
        {
            let mut c: usize = 0;
            let mut found = false;
            while c < self.values.len()
                invariant
                    c <= self.values.len(),
                    j < values.len(),
                    found ==> self.assigns(values@[j as int]),
                    !found ==> forall|c2: int|
                        0 <= c2 < c ==> !((#[trigger] self.values@[c2]).name@ == values@[j as int].0@
                            && self.values@[c2].dtype.accepts(values@[j as int].1@)),
                decreases self.values.len() - c,
            {
                if self.values[c].name == values[j].0 && self.values[c].dtype.admits(&values[j].1) {
                    found = true;
                }
                c = c + 1;
            }
            if !found {
                proof {
                    if self.valid_assignments(values@) {
                        assert(self.assigns(values@[j as int]));
                        let c2 = choose|c2: int|
                            0 <= c2 < self.values@.len() && (#[trigger] self.values@[c2]).name@
                                == values@[j as int].0@ && self.values@[c2].dtype.accepts(
                                values@[j as int].1@,
                            );
                        assert(false);
                    }
                }
                return false;
            }
            j = j + 1;
        }
        true
    }

    /// The value that the last assignment to `name` gives it, if any.
    fn assignment(values: &Vec<(String, Value)>, name: &String) -> (r: Option<Value>)
        ensures
            match r {
                Some(v) => assigned(values@, name@) == Some(v@),
                None => assigned(values@, name@) is None,
            },
    {
        let mut j: usize = values.len();
        assert(values@.subrange(0, j as int) =~= values@);
        while j > 0
            invariant
                j <= values.len(),
                assigned(values@, name@) == assigned(values@.subrange(0, j as int), name@),
            decreases j,
        {
            j = j - 1;
            assert(values@.subrange(0, j + 1).drop_last() =~= values@.subrange(0, j as int));
            if values[j].0 == *name {
                return Some(values[j].1.clone());
            }
        }
        None
    }

    /// `row` with each value column that `values` assigns set to its value.
    pub fn update_row(&self, row: &Vec<Value>, values: &Vec<(String, Value)>) -> (r: Vec<Value>)
        ensures
            values_view(r@) == self.updated_row(values_view(row@), values@),
    {
        let mut r = clone_values(row);
        let n = self.key.len();
        let mut c: usize = 0;
        while c < self.values.len()
            invariant
                n == self.key@.len(),
                c <= self.values.len(),
                r@.len() == row@.len(),
                forall|j: int|
                    0 <= j < r@.len() ==> #[trigger] r@[j]@ == (if n <= j < n + c && assigned(
                        values@,
                        self.values@[j - n].name@,
                    ) is Some {
                        assigned(values@, self.values@[j - n].name@).unwrap()
                    } else {
                        row@[j]@
                    }),
            decreases self.values.len() - c,
        {
            if n < r.len() && c < r.len() - n {
                match TableSchema::assignment(values, &self.values[c].name) {
                    Some(v) => {
                        r.set(n + c, v);
                    },
                    None => {},
                }
            }
            c = c + 1;
        }
        assert(values_view(r@) =~= self.updated_row(values_view(row@), values@));
        r
    }
}

/// A range of keys: those that begin with `prefix`.
#[derive(Debug)]
pub struct Range {
    pub prefix: Vec<Value>,
}

impl View for Range {
    type V = Seq<ValueView>;

    open spec fn view(&self) -> Seq<ValueView> {
        values_view(self.prefix@)
    }
}

/// Whether the range with prefix `range` holds `key`.
pub open spec fn range_contains(range: Seq<ValueView>, key: Seq<ValueView>) -> bool {
    range.len() <= key.len() && key.subrange(0, range.len() as int) == range
}

/// Whether two ranges may hold a common key: one prefix extends the other.
pub open spec fn ranges_overlap(a: Seq<ValueView>, b: Seq<ValueView>) -> bool {
    range_contains(a, b) || range_contains(b, a)
}

impl Range {
    /// The range of all keys.
    pub fn all() -> (r: Range)
        ensures
            r@ == Seq::<ValueView>::empty(),
    {
        Range { prefix: Vec::new() }
    }

    pub fn with_prefix(prefix: Vec<Value>) -> (r: Range)
        ensures
            r.prefix == prefix,
    {
        Range { prefix }
    }

    /// Whether this range holds the key made of the first `n` values of `row`.
    pub fn holds(&self, row: &Vec<Value>, n: usize) -> (r: bool)
        requires
            n <= row.len(),
        ensures
            r == range_contains(self@, values_view(row@).subrange(0, n as int)),
    {
        let p = self.prefix.len();
        if p > n {
            return false;
        }
        let c = cmp_prefix(row, &self.prefix, p);
        proof {
            let a = values_view(row@).subrange(0, p as int);
            let b = values_view(self.prefix@).subrange(0, p as int);
            lemma_key_cmp(a, b, a);
            assert(b =~= self@);
            assert(values_view(row@).subrange(0, n as int).subrange(0, p as int) =~= a);
        }
        c == 0
    }

    /// Whether this range and `other` may hold a common key.
    pub fn overlaps(&self, other: &Range) -> (r: bool)
        ensures
            r == ranges_overlap(self@, other@),
    {
        let m = if self.prefix.len() < other.prefix.len() {
            self.prefix.len()
        } else {
            other.prefix.len()
        };
        let c = cmp_prefix(&self.prefix, &other.prefix, m);
        proof {
            let a = self@.subrange(0, m as int);
            let b = other@.subrange(0, m as int);
            lemma_key_cmp(a, b, a);
            if self@.len() <= other@.len() {
                assert(a =~= self@);
            } else {
                assert(b =~= other@);
            }
        }
        c == 0
    }

    pub fn clone_range(&self) -> (r: Range)
        ensures
            r@ == self@,
    {
        Range { prefix: clone_values(&self.prefix) }
    }
}

} // verus!
