//! Scalar values, their types, and the collation that orders them.

use vstd::prelude::*;

verus! {

/// A scalar value stored in a column of a table.
#[derive(Debug, PartialEq)]
pub enum Value {
    Null,
    Bool(bool),
    Int(i64),
    UInt(u64),
    String(String),
}

/// The mathematical content of a [`Value`].
pub enum ValueView {
    Null,
    Bool(bool),
    Int(i64),
    UInt(u64),
    String(Seq<char>),
}

impl View for Value {
    type V = ValueView;

    open spec fn view(&self) -> ValueView {
        match self {
            Value::Null => ValueView::Null,
            Value::Bool(b) => ValueView::Bool(*b),
            Value::Int(i) => ValueView::Int(*i),
            Value::UInt(u) => ValueView::UInt(*u),
            Value::String(s) => ValueView::String(s@),
        }
    }
}

impl Clone for Value {
    fn clone(&self) -> (r: Value)
        ensures
            r == *self,
    {
        match self {
            Value::Null => Value::Null,
            Value::Bool(b) => Value::Bool(*b),
            Value::Int(i) => Value::Int(*i),
            Value::UInt(u) => Value::UInt(*u),
            Value::String(s) => Value::String(s.clone()),
        }
    }
}

/// The view of a sequence of values.
pub open spec fn values_view(r: Seq<Value>) -> Seq<ValueView> {
    r.map_values(|v: Value| v@)
}

/// Lexicographic order of character sequences: -1, 0 or 1.
pub open spec fn chars_cmp(a: Seq<char>, b: Seq<char>) -> int
    decreases a.len(),
{
    if a.len() == 0 && b.len() == 0 {
        0
    } else if a.len() == 0 {
        -1
    } else if b.len() == 0 {
        1
    } else if (a[0] as u32) < (b[0] as u32) {
        -1
    } else if (a[0] as u32) > (b[0] as u32) {
        1
    } else {
        chars_cmp(a.drop_first(), b.drop_first())
    }
}

/// The position of a value's variant in the collation.
pub open spec fn rank(v: ValueView) -> int {
    match v {
        ValueView::Null => 0,
        ValueView::Bool(_) => 1,
        ValueView::Int(_) => 2,
        ValueView::UInt(_) => 3,
        ValueView::String(_) => 4,
    }
}

/// The collation of values: by variant, then by content. -1, 0 or 1.
pub open spec fn value_cmp(a: ValueView, b: ValueView) -> int {
    if rank(a) < rank(b) {
        -1
    } else if rank(a) > rank(b) {
        1
    } else {
        match (a, b) {
            (ValueView::Bool(x), ValueView::Bool(y)) => if x == y {
                0
            } else if !x {
                -1
            } else {
                1
            },
            (ValueView::Int(x), ValueView::Int(y)) => if x < y {
                -1
            } else if x > y {
                1
            } else {
                0
            },
            (ValueView::UInt(x), ValueView::UInt(y)) => if x < y {
                -1
            } else if x > y {
                1
            } else {
                0
            },
            (ValueView::String(x), ValueView::String(y)) => chars_cmp(x, y),
            _ => 0,
        }
    }
}

/// The collation of keys: lexicographic over [`value_cmp`]. -1, 0 or 1.
pub open spec fn key_cmp(a: Seq<ValueView>, b: Seq<ValueView>) -> int
    decreases a.len(),
{
    if a.len() == 0 && b.len() == 0 {
        0
    } else if a.len() == 0 {
        -1
    } else if b.len() == 0 {
        1
    } else if value_cmp(a[0], b[0]) != 0 {
        value_cmp(a[0], b[0])
    } else {
        key_cmp(a.drop_first(), b.drop_first())
    }
}

proof fn lemma_cons_eq<A>(a: Seq<A>, b: Seq<A>)
    requires
        a.len() > 0,
        b.len() > 0,
        a[0] == b[0],
        a.drop_first() == b.drop_first(),
    ensures
        a == b,
{
    assert(a.drop_first().len() == a.len() - 1);
    assert(b.drop_first().len() == b.len() - 1);
    assert(a.len() == b.len());
    assert forall|i: int| 0 <= i < a.len() implies a[i] == b[i] by {
        if i > 0 {
            assert(a[i] == a.drop_first()[i - 1]);
            assert(b[i] == b.drop_first()[i - 1]);
        }
    }
    assert(a =~= b);
}

proof fn lemma_char_code_injective(x: char, y: char)
    ensures
        (x as u32) == (y as u32) ==> x == y,
{
}

pub proof fn lemma_chars_cmp(a: Seq<char>, b: Seq<char>, c: Seq<char>)
    ensures
        -1 <= chars_cmp(a, b) <= 1,
        chars_cmp(a, b) == 0 <==> a == b,
        chars_cmp(a, b) == -chars_cmp(b, a),
        chars_cmp(a, b) < 0 && chars_cmp(b, c) < 0 ==> chars_cmp(a, c) < 0,
    decreases a.len(),
{
    if a.len() > 0 && b.len() > 0 && c.len() > 0 {
        lemma_chars_cmp(a.drop_first(), b.drop_first(), c.drop_first());
        if a.drop_first() == b.drop_first() && (a[0] as u32) == (b[0] as u32) {
            lemma_char_code_injective(a[0], b[0]);
            lemma_cons_eq(a, b);
        }
    } else if a.len() > 0 && b.len() > 0 {
        lemma_chars_cmp(a.drop_first(), b.drop_first(), c);
        if a.drop_first() == b.drop_first() && (a[0] as u32) == (b[0] as u32) {
            lemma_char_code_injective(a[0], b[0]);
            lemma_cons_eq(a, b);
        }
    }
    if a.len() == 0 && b.len() == 0 {
        assert(a =~= b);
    }
}

pub proof fn lemma_value_cmp(a: ValueView, b: ValueView, c: ValueView)
    ensures
        -1 <= value_cmp(a, b) <= 1,
        value_cmp(a, b) == 0 <==> a == b,
        value_cmp(a, b) == -value_cmp(b, a),
        value_cmp(a, b) < 0 && value_cmp(b, c) < 0 ==> value_cmp(a, c) < 0,
{
    match (a, b, c) {
        (ValueView::String(x), ValueView::String(y), ValueView::String(z)) => {
            lemma_chars_cmp(x, y, z);
        },
        (ValueView::String(x), ValueView::String(y), _) => {
            lemma_chars_cmp(x, y, x);
        },
        _ => {},
    }
}

pub proof fn lemma_key_cmp(a: Seq<ValueView>, b: Seq<ValueView>, c: Seq<ValueView>)
    ensures
        -1 <= key_cmp(a, b) <= 1,
        key_cmp(a, b) == 0 <==> a == b,
        key_cmp(a, b) == -key_cmp(b, a),
        key_cmp(a, b) < 0 && key_cmp(b, c) < 0 ==> key_cmp(a, c) < 0,
    decreases a.len(),
{
    if a.len() > 0 && b.len() > 0 {
        if c.len() > 0 {
            lemma_value_cmp(a[0], b[0], c[0]);
            lemma_value_cmp(a[0], c[0], b[0]);
            lemma_value_cmp(b[0], c[0], a[0]);
            lemma_key_cmp(a.drop_first(), b.drop_first(), c.drop_first());
        } else {
            lemma_value_cmp(a[0], b[0], a[0]);
            lemma_key_cmp(a.drop_first(), b.drop_first(), a.drop_first());
        }
        if a.drop_first() == b.drop_first() && a[0] == b[0] {
            lemma_cons_eq(a, b);
        }
    }
    if a.len() == 0 && b.len() == 0 {
        assert(a =~= b);
    }
}

/// Compare two strings in the collation's order.
pub fn cmp_strings(a: &String, b: &String) -> (r: i8)
    ensures
        r as int == chars_cmp(a@, b@),
{
    let sa = a.as_str();
    let sb = b.as_str();
    let la = sa.unicode_len();
    let lb = sb.unicode_len();
    let mut i: usize = 0;
    assert(a@.skip(0) =~= a@);
    assert(b@.skip(0) =~= b@);
    while i < la && i < lb
        invariant
            la == a@.len(),
            lb == b@.len(),
            sa@ == a@,
            sb@ == b@,
            i <= la,
            i <= lb,
            chars_cmp(a@, b@) == chars_cmp(a@.skip(i as int), b@.skip(i as int)),
        decreases la - i,
    {
        let x = sa.get_char(i);
        let y = sb.get_char(i);
        assert(a@.skip(i as int)[0] == x);
        assert(b@.skip(i as int)[0] == y);
        if (x as u32) < (y as u32) {
            return -1;
        } else if (x as u32) > (y as u32) {
            return 1;
        }
        assert(a@.skip(i as int).drop_first() =~= a@.skip(i + 1));
        assert(b@.skip(i as int).drop_first() =~= b@.skip(i + 1));
        i = i + 1;
    }
    if i == la && i == lb {
        0
    } else if i == la {
        -1
    } else {
        1
    }
}

/// Compare two values in the collation's order.
pub fn cmp_values(a: &Value, b: &Value) -> (r: i8)
    ensures
        r as int == value_cmp(a@, b@),
{
    match (a, b) {
        (Value::Null, Value::Null) => 0,
        (Value::Bool(x), Value::Bool(y)) => if *x == *y {
            0
        } else if !*x {
            -1
        } else {
            1
        },
        (Value::Int(x), Value::Int(y)) => if *x < *y {
            -1
        } else if *x > *y {
            1
        } else {
            0
        },
        (Value::UInt(x), Value::UInt(y)) => if *x < *y {
            -1
        } else if *x > *y {
            1
        } else {
            0
        },
        (Value::String(x), Value::String(y)) => cmp_strings(x, y),
        _ => {
            let ra = value_rank(a);
            let rb = value_rank(b);
            if ra < rb {
                -1
            } else {
                1
            }
        },
    }
}

fn value_rank(v: &Value) -> (r: u8)
    ensures
        r as int == rank(v@),
{
    match v {
        Value::Null => 0,
        Value::Bool(_) => 1,
        Value::Int(_) => 2,
        Value::UInt(_) => 3,
        Value::String(_) => 4,
    }
}

/// Compare the first `n` values of two rows in the collation's order.
pub fn cmp_prefix(a: &Vec<Value>, b: &Vec<Value>, n: usize) -> (r: i8)
    requires
        n <= a.len(),
        n <= b.len(),
    ensures
        r as int == key_cmp(
            values_view(a@).subrange(0, n as int),
            values_view(b@).subrange(0, n as int),
        ),
{
    let ghost ka = values_view(a@).subrange(0, n as int);
    let ghost kb = values_view(b@).subrange(0, n as int);
    let mut i: usize = 0;
    assert(ka.skip(0) =~= ka);
    assert(kb.skip(0) =~= kb);
    while i < n
        invariant
            n <= a.len(),
            n <= b.len(),
            i <= n,
            ka == values_view(a@).subrange(0, n as int),
            kb == values_view(b@).subrange(0, n as int),
            key_cmp(ka, kb) == key_cmp(ka.skip(i as int), kb.skip(i as int)),
        decreases n - i,
    {
        let c = cmp_values(&a[i], &b[i]);
        assert(ka.skip(i as int)[0] == a@[i as int]@);
        assert(kb.skip(i as int)[0] == b@[i as int]@);
        if c != 0 {
            return c;
        }
        assert(ka.skip(i as int).drop_first() =~= ka.skip(i + 1));
        assert(kb.skip(i as int).drop_first() =~= kb.skip(i + 1));
        i = i + 1;
    }
    assert(ka.skip(n as int) =~= Seq::<ValueView>::empty());
    assert(kb.skip(n as int) =~= Seq::<ValueView>::empty());
    0
}

} // verus!

verus! {

/// The type of a number.
#[derive(Clone, Copy, Debug, PartialEq, Eq, Structural)]
pub enum NumberType {
    Bool,
    Int64,
    UInt64,
}

/// The type of a [`Value`]; `Value` admits any value.
#[derive(Clone, Copy, Debug, PartialEq, Eq, Structural)]
pub enum ValueType {
    Null,
    Number(NumberType),
    TCString,
    Value,
}

impl ValueType {
    pub fn uint64() -> (r: Self)
        ensures
            r == ValueType::Number(NumberType::UInt64),
    {
        ValueType::Number(NumberType::UInt64)
    }

    /// Whether a value of this type may hold `v`.
    pub open spec fn accepts(self, v: ValueView) -> bool {
        match self {
            ValueType::Null => v is Null,
            ValueType::Number(NumberType::Bool) => v is Bool,
            ValueType::Number(NumberType::Int64) => v is Int,
            ValueType::Number(NumberType::UInt64) => v is UInt,
            ValueType::TCString => v is String,
            ValueType::Value => true,
        }
    }

    /// Whether a value of this type may hold `v`.
    pub fn admits(&self, v: &Value) -> (r: bool)
        ensures
            r == self.accepts(v@),
    {
        match (self, v) {
            (ValueType::Null, Value::Null) => true,
            (ValueType::Number(NumberType::Bool), Value::Bool(_)) => true,
            (ValueType::Number(NumberType::Int64), Value::Int(_)) => true,
            (ValueType::Number(NumberType::UInt64), Value::UInt(_)) => true,
            (ValueType::TCString, Value::String(_)) => true,
            (ValueType::Value, _) => true,
            _ => false,
        }
    }
}

} // verus!

verus! {

/// Copy a sequence of values.
pub fn clone_values(v: &Vec<Value>) -> (r: Vec<Value>)
    ensures
        r@ == v@,
{
    let mut r: Vec<Value> = Vec::with_capacity(v.len());
    let mut i: usize = 0;
    while i < v.len()
        invariant
            i <= v.len(),
            r@ == v@.subrange(0, i as int),
        decreases v.len() - i,
    {
        r.push(v[i].clone());
        i = i + 1;
    }
    assert(r@ =~= v@);
    r
}

} // verus!
