//! Cell values of column batches and their mathematical views.
use vstd::prelude::*;

verus! {

/// A non-null cell value.
#[derive(Clone, Debug, PartialEq, Eq)]
pub enum Scalar {
    Iri(String),
    Text(String),
    Int(i64),
    Bool(bool),
}

/// The view of a [`Scalar`].
pub enum ScalarV {
    Iri(Seq<char>),
    Text(Seq<char>),
    Int(i64),
    Bool(bool),
}

impl View for Scalar {
    type V = ScalarV;

    open spec fn view(&self) -> ScalarV {
        match self {
            Scalar::Iri(s) => ScalarV::Iri(s@),
            Scalar::Text(s) => ScalarV::Text(s@),
            Scalar::Int(i) => ScalarV::Int(*i),
            Scalar::Bool(b) => ScalarV::Bool(*b),
        }
    }
}

impl Scalar {
    pub fn copy(&self) -> (r: Scalar)
        ensures
            r@ == self@,
    {
        match self {
            Scalar::Iri(s) => Scalar::Iri(s.clone()),
            Scalar::Text(s) => Scalar::Text(s.clone()),
            Scalar::Int(i) => Scalar::Int(*i),
            Scalar::Bool(b) => Scalar::Bool(*b),
        }
    }

    pub fn same(&self, o: &Scalar) -> (r: bool)
        ensures
            r == (self@ == o@),
    {
        match (self, o) {
            (Scalar::Iri(a), Scalar::Iri(b)) => a.eq(b),
            (Scalar::Text(a), Scalar::Text(b)) => a.eq(b),
            (Scalar::Int(a), Scalar::Int(b)) => *a == *b,
            (Scalar::Bool(a), Scalar::Bool(b)) => *a == *b,
            _ => false,
        }
    }
}

/// A cell: null, one value, or a list of values (before list expansion).
#[derive(Clone, Debug, PartialEq, Eq)]
pub enum Value {
    Null,
    Item(Scalar),
    List(Vec<Scalar>),
}

/// The view of a [`Value`].
pub enum ValueV {
    Null,
    Item(ScalarV),
    List(Seq<ScalarV>),
}

pub open spec fn scalars_view(v: Seq<Scalar>) -> Seq<ScalarV> {
    v.map_values(|s: Scalar| s@)
}

impl View for Value {
    type V = ValueV;

    open spec fn view(&self) -> ValueV {
        match self {
            Value::Null => ValueV::Null,
            Value::Item(s) => ValueV::Item(s@),
            Value::List(v) => ValueV::List(scalars_view(v@)),
        }
    }
}

pub fn copy_scalars(v: &Vec<Scalar>) -> (r: Vec<Scalar>)
    ensures
        scalars_view(r@) == scalars_view(v@),
{
    let mut r: Vec<Scalar> = Vec::new();
    let mut i: usize = 0;
    while i < v.len()
        invariant
            i <= v.len(),
            r.len() == i,
            forall|k: int| 0 <= k < i ==> r@[k]@ == v@[k]@,
        decreases v.len() - i,
    {
        r.push(v[i].copy());
        i += 1;
    }
    proof {
        assert(scalars_view(r@) =~= scalars_view(v@));
    }
    r
}

pub fn same_scalars(a: &Vec<Scalar>, b: &Vec<Scalar>) -> (r: bool)
    ensures
        r == (scalars_view(a@) == scalars_view(b@)),
{
    if a.len() != b.len() {
        proof {
            assert(scalars_view(a@).len() != scalars_view(b@).len());
        }
        return false;
    }
    let mut i: usize = 0;
    while i < a.len()
        invariant
            a.len() == b.len(),
            i <= a.len(),
            forall|k: int| 0 <= k < i ==> a@[k]@ == b@[k]@,
        decreases a.len() - i,
    {
        if !a[i].same(&b[i]) {
            proof {
                assert(scalars_view(a@)[i as int] != scalars_view(b@)[i as int]);
            }
            return false;
        }
        i += 1;
    }
    proof {
        assert(scalars_view(a@) =~= scalars_view(b@));
    }
    true
}

impl Value {
    pub fn copy(&self) -> (r: Value)
        ensures
            r@ == self@,
    {
        match self {
            Value::Null => Value::Null,
            Value::Item(s) => Value::Item(s.copy()),
            Value::List(v) => Value::List(copy_scalars(v)),
        }
    }

    pub fn same(&self, o: &Value) -> (r: bool)
        ensures
            r == (self@ == o@),
    {
        match (self, o) {
            (Value::Null, Value::Null) => true,
            (Value::Item(a), Value::Item(b)) => a.same(b),
            (Value::List(a), Value::List(b)) => same_scalars(a, b),
            _ => false,
        }
    }

    pub fn is_null(&self) -> (r: bool)
        ensures
            r == (self@ is Null),
    {
        match self {
            Value::Null => true,
            _ => false,
        }
    }
}

/// The view of a row.
pub open spec fn row_view(r: Seq<Value>) -> Seq<ValueV> {
    r.map_values(|v: Value| v@)
}

/// The view of a sequence of rows.
pub open spec fn rows_view(rows: Seq<Vec<Value>>) -> Seq<Seq<ValueV>> {
    rows.map_values(|r: Vec<Value>| row_view(r@))
}

pub fn copy_row(r: &Vec<Value>) -> (o: Vec<Value>)
    ensures
        row_view(o@) == row_view(r@),
        o@.len() == r@.len(),
{
    let mut o: Vec<Value> = Vec::new();
    let mut i: usize = 0;
    while i < r.len()
        invariant
            i <= r.len(),
            o.len() == i,
            forall|k: int| 0 <= k < i ==> o@[k]@ == r@[k]@,
        decreases r.len() - i,
    {
        o.push(r[i].copy());
        i += 1;
    }
    proof {
        assert(row_view(o@) =~= row_view(r@));
    }
    o
}

pub fn same_row(a: &Vec<Value>, b: &Vec<Value>) -> (r: bool)
    ensures
        r == (row_view(a@) == row_view(b@)),
{
    if a.len() != b.len() {
        proof {
            assert(row_view(a@).len() != row_view(b@).len());
        }
        return false;
    }
    let mut i: usize = 0;
    while i < a.len()
        invariant
            a.len() == b.len(),
            i <= a.len(),
            forall|k: int| 0 <= k < i ==> a@[k]@ == b@[k]@,
        decreases a.len() - i,
    {
        if !a[i].same(&b[i]) {
            proof {
                assert(row_view(a@)[i as int] != row_view(b@)[i as int]);
            }
            return false;
        }
        i += 1;
    }
    proof {
        assert(row_view(a@) =~= row_view(b@));
    }
    true
}

pub fn copy_strings(v: &Vec<String>) -> (r: Vec<String>)
    ensures
        r@ == v@,
{
    let mut r: Vec<String> = Vec::new();
    let mut i: usize = 0;
    while i < v.len()
        invariant
            i <= v.len(),
            r@ == v@.take(i as int),
        decreases v.len() - i,
    {
        r.push(v[i].clone());
        proof {
            assert(v@.take(i as int + 1) == v@.take(i as int).push(v@[i as int]));
        }
        i += 1;
    }
    proof {
        assert(v@.take(i as int) == v@);
    }
    r
}

} // verus!
