//! SQL values and rows.
//!
//! A `Value` is what a column holds; a `HashableRow` is a row of a relation with its row id.
//! Contracts speak of their views, `Datum` and `RowView`, in which text is a sequence of
//! characters and a blob a sequence of bytes.

use vstd::prelude::*;

verus! {

/// A real number, by what is read of it: the bit pattern of its binary64 value, and the shortest
/// decimal text that reads back as that value.
#[derive(Debug, PartialEq, Eq)]
pub struct Real {
    pub bits: u64,
    pub text: String,
}

#[verifier::ext_equal]
pub struct RealView {
    pub bits: u64,
    pub text: Seq<char>,
}

impl View for Real {
    type V = RealView;

    open spec fn view(&self) -> RealView {
        RealView { bits: self.bits, text: self.text@ }
    }
}

/// A number as SQL stores it.
#[derive(Debug, PartialEq, Eq)]
pub enum Numeric {
    Integer(i64),
    Float(Real),
}

#[verifier::ext_equal]
pub enum NumericView {
    Integer(i64),
    Float(RealView),
}

impl View for Numeric {
    type V = NumericView;

    open spec fn view(&self) -> NumericView {
        match self {
            Numeric::Integer(i) => NumericView::Integer(*i),
            Numeric::Float(f) => NumericView::Float(f@),
        }
    }
}

/// One column value.
#[derive(Debug, PartialEq, Eq)]
pub enum Value {
    Null,
    Numeric(Numeric),
    Text(String),
    Blob(Vec<u8>),
}

/// What a `Value` holds.
#[verifier::ext_equal]
pub enum Datum {
    Null,
    Numeric(NumericView),
    Text(Seq<char>),
    Blob(Seq<u8>),
}

impl View for Value {
    type V = Datum;

    open spec fn view(&self) -> Datum {
        match self {
            Value::Null => Datum::Null,
            Value::Numeric(n) => Datum::Numeric(n@),
            Value::Text(s) => Datum::Text(s@),
            Value::Blob(b) => Datum::Blob(b@),
        }
    }
}

/// The integer `i` as a datum.
pub open spec fn int_datum(i: int) -> Datum {
    Datum::Numeric(NumericView::Integer(i as i64))
}

/// What a list of values holds.
pub open spec fn data(values: Seq<Value>) -> Seq<Datum> {
    values.map_values(|v: Value| v@)
}

/// Whether two byte vectors hold the same bytes.
pub fn same_bytes(a: &Vec<u8>, b: &Vec<u8>) -> (r: bool)
    ensures
        r == (a@ == b@),
{
    if a.len() != b.len() {
        return false;
    }
    let mut i: usize = 0;
    while i < a.len()
        invariant
            i <= a.len(),
            a.len() == b.len(),
            forall|j: int| 0 <= j < i ==> a@[j] == b@[j],
        decreases a.len() - i,
    {
        if a[i] != b[i] {
            return false;
        }
        i += 1;
    }
    assert(a@ =~= b@);
    true
}

/// A copy of a byte vector.
pub fn copy_bytes(a: &Vec<u8>) -> (r: Vec<u8>)
    ensures
        r@ == a@,
{
    let mut out: Vec<u8> = Vec::new();
    let mut i: usize = 0;
    while i < a.len()
        invariant
            i <= a.len(),
            out@ == a@.subrange(0, i as int),
        decreases a.len() - i,
    {
        out.push(a[i]);
        i += 1;
        assert(out@ =~= a@.subrange(0, i as int));
    }
    assert(out@ =~= a@);
    out
}

impl Clone for Numeric {
    fn clone(&self) -> (r: Self)
        ensures
            r@ == self@,
    {
        match self {
            Numeric::Integer(i) => Numeric::Integer(*i),
            Numeric::Float(f) => Numeric::Float(Real { bits: f.bits, text: f.text.clone() }),
        }
    }
}

impl Numeric {
    /// Whether two numbers are stored alike.
    pub fn same(&self, other: &Numeric) -> (r: bool)
        ensures
            r == (self@ == other@),
    {
        match (self, other) {
            (Numeric::Integer(a), Numeric::Integer(b)) => *a == *b,
            (Numeric::Float(a), Numeric::Float(b)) => a.bits == b.bits && a.text == b.text,
            _ => false,
        }
    }
}

impl Clone for Value {
    fn clone(&self) -> (r: Self)
        ensures
            r@ == self@,
    {
        match self {
            Value::Null => Value::Null,
            Value::Numeric(n) => Value::Numeric(n.clone()),
            Value::Text(s) => Value::Text(s.clone()),
            Value::Blob(b) => Value::Blob(copy_bytes(b)),
        }
    }
}

impl Value {
    /// The integer `i` as a value.
    pub fn from_i64(i: i64) -> (r: Value)
        ensures
            r@ == int_datum(i as int),
    {
        Value::Numeric(Numeric::Integer(i))
    }

    pub fn is_null(&self) -> (r: bool)
        ensures
            r == (self@ is Null),
    {
        match self {
            Value::Null => true,
            _ => false,
        }
    }

    /// Whether two values hold the same datum.
    pub fn same(&self, other: &Value) -> (r: bool)
        ensures
            r == (self@ == other@),
    {
        match (self, other) {
            (Value::Null, Value::Null) => true,
            (Value::Numeric(a), Value::Numeric(b)) => a.same(b),
            (Value::Text(a), Value::Text(b)) => *a == *b,
            (Value::Blob(a), Value::Blob(b)) => same_bytes(a, b),
            _ => false,
        }
    }
}

/// A copy of a list of values.
pub fn copy_values(values: &Vec<Value>) -> (r: Vec<Value>)
    ensures
        data(r@) == data(values@),
        r@.len() == values@.len(),
{
    let mut out: Vec<Value> = Vec::new();
    let mut i: usize = 0;
    while i < values.len()
        invariant
            i <= values.len(),
            out@.len() == i,
            forall|j: int| 0 <= j < i ==> out@[j]@ == values@[j]@,
        decreases values.len() - i,
    {
        out.push(values[i].clone());
        i += 1;
    }
    assert(data(out@) =~= data(values@));
    out
}

/// Whether two lists of values hold the same data.
pub fn same_values(a: &Vec<Value>, b: &Vec<Value>) -> (r: bool)
    ensures
        r == (data(a@) == data(b@)),
{
    if a.len() != b.len() {
        assert(data(a@).len() != data(b@).len());
        return false;
    }
    let mut i: usize = 0;
    while i < a.len()
        invariant
            i <= a.len(),
            a.len() == b.len(),
            forall|j: int| 0 <= j < i ==> a@[j]@ == b@[j]@,
        decreases a.len() - i,
    {
        if !a[i].same(&b[i]) {
            assert(data(a@)[i as int] != data(b@)[i as int]);
            return false;
        }
        i += 1;
    }
    assert(data(a@) =~= data(b@));
    true
}

/// Whether any value of a list is NULL.
pub open spec fn has_null(values: Seq<Datum>) -> bool {
    exists|i: int| 0 <= i < values.len() && values[i] is Null
}

/// Whether any value of a list is NULL.
pub fn any_null(values: &Vec<Value>) -> (r: bool)
    ensures
        r == has_null(data(values@)),
{
    let mut i: usize = 0;
    while i < values.len()
        invariant
            i <= values.len(),
            forall|j: int| 0 <= j < i ==> !(data(values@)[j] is Null),
        decreases values.len() - i,
    {
        if values[i].is_null() {
            assert(data(values@)[i as int] is Null);
            return true;
        }
        i += 1;
    }
    false
}

/// A row of a relation.
#[derive(Debug, PartialEq, Eq)]
pub struct HashableRow {
    pub rowid: i64,
    pub values: Vec<Value>,
}

/// What a row holds.
#[verifier::ext_equal]
pub struct RowView {
    pub rowid: i64,
    pub values: Seq<Datum>,
}

impl View for HashableRow {
    type V = RowView;

    open spec fn view(&self) -> RowView {
        RowView { rowid: self.rowid, values: data(self.values@) }
    }
}

impl Clone for HashableRow {
    fn clone(&self) -> (r: Self)
        ensures
            r@ == self@,
    {
        HashableRow { rowid: self.rowid, values: copy_values(&self.values) }
    }
}

impl HashableRow {
    pub fn new(rowid: i64, values: Vec<Value>) -> (r: Self)
        ensures
            r.rowid == rowid,
            r.values == values,
            r@ == (RowView { rowid, values: data(values@) }),
    {
        HashableRow { rowid, values }
    }

    /// Whether two rows have the same row id and the same values.
    pub fn same(&self, other: &HashableRow) -> (r: bool)
        ensures
            r == (self@ == other@),
    {
        self.rowid == other.rowid && same_values(&self.values, &other.values)
    }
}

} // verus!
