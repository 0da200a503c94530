//! Column batches: named columns over positional rows, and the row-level
//! operations of expansion (list explosion, null dropping, deduplication).
use vstd::prelude::*;
use crate::value::{Value, ValueV, row_view, rows_view, copy_row, same_row};

verus! {

/// A batch of rows under named columns.
#[derive(Clone, Debug, PartialEq, Eq)]
pub struct Batch {
    pub names: Vec<String>,
    pub rows: Vec<Vec<Value>>,
}

pub struct BatchV {
    pub names: Seq<Seq<char>>,
    pub rows: Seq<Seq<ValueV>>,
}

pub open spec fn names_view(v: Seq<String>) -> Seq<Seq<char>> {
    v.map_values(|s: String| s@)
}

impl View for Batch {
    type V = BatchV;

    open spec fn view(&self) -> BatchV {
        BatchV { names: names_view(self.names@), rows: rows_view(self.rows@) }
    }
}

/// Every row of `rows` has exactly `n` cells.
pub open spec fn rows_have_width(rows: Seq<Seq<ValueV>>, n: nat) -> bool {
    forall|i: int| 0 <= i < rows.len() ==> #[trigger] rows[i].len() == n
}

impl BatchV {
    pub open spec fn wf(self) -> bool {
        rows_have_width(self.rows, self.names.len())
    }
}

impl Batch {
    pub open spec fn wf(&self) -> bool {
        self@.wf()
    }

    pub fn height(&self) -> (r: usize)
        ensures
            r == self@.rows.len(),
    {
        self.rows.len()
    }

    /// The first column named `name`, if any.
    pub fn column_index(&self, name: &String) -> (r: Option<usize>)
        ensures
            r is None ==> !self@.names.contains(name@),
            r matches Some(j) ==> j < self@.names.len() && self@.names[j as int] == name@
                && forall|k: int| 0 <= k < j ==> self@.names[k] != name@,
    {
        let mut j: usize = 0;
        while j < self.names.len()
            invariant
                j <= self.names.len(),
                forall|k: int| 0 <= k < j ==> self@.names[k] != name@,
            decreases self.names.len() - j,
        {
            if self.names[j].eq(name) {
                return Some(j);
            }
            j += 1;
        }
        None
    }
}

pub proof fn lemma_rows_view_push(rows: Seq<Vec<Value>>, r: Vec<Value>)
    ensures
        rows_view(rows.push(r)) == rows_view(rows).push(row_view(r@)),
{
    assert(rows_view(rows.push(r)) =~= rows_view(rows).push(row_view(r@)));
}

/// How many rows a cell turns into when it is exploded.
pub open spec fn list_len(v: ValueV) -> nat {
    match v {
        ValueV::Null => 0,
        ValueV::Item(_) => 1,
        ValueV::List(s) => s.len(),
    }
}

/// The `k`-th cell that exploding `v` yields (null past its end).
pub open spec fn list_elem(v: ValueV, k: int) -> ValueV {
    match v {
        ValueV::Null => ValueV::Null,
        ValueV::Item(x) => if k == 0 { ValueV::Item(x) } else { ValueV::Null },
        ValueV::List(s) => if 0 <= k < s.len() { ValueV::Item(s[k]) } else { ValueV::Null },
    }
}

/// The rows that one row becomes when column `c` alone is exploded.
pub open spec fn explode_row(r: Seq<ValueV>, c: int) -> Seq<Seq<ValueV>> {
    Seq::new(list_len(r[c]), |k: int| r.update(c, list_elem(r[c], k)))
}

/// Exploding column `c` of every row, in row order.
pub open spec fn explode_col(rows: Seq<Seq<ValueV>>, c: int) -> Seq<Seq<ValueV>>
    decreases rows.len(),
{
    if rows.len() == 0 {
        seq![]
    } else {
        explode_col(rows.drop_last(), c) + explode_row(rows.last(), c)
    }
}

/// Exploding the columns `cs` one after the other: their cartesian product.
pub open spec fn cross_explode(rows: Seq<Seq<ValueV>>, cs: Seq<int>) -> Seq<Seq<ValueV>>
    decreases cs.len(),
{
    if cs.len() == 0 {
        rows
    } else {
        explode_col(cross_explode(rows, cs.drop_last()), cs.last())
    }
}

/// How many rows a joint explosion of `cs` makes of row `r`: the shortest
/// or the longest list among them (one row when `cs` is empty).
pub open spec fn zip_len(r: Seq<ValueV>, cs: Seq<int>, shortest: bool) -> nat
    decreases cs.len(),
{
    if cs.len() == 0 {
        1
    } else if cs.len() == 1 {
        list_len(r[cs[0]])
    } else {
        let a = zip_len(r, cs.drop_last(), shortest);
        let b = list_len(r[cs.last()]);
        if shortest {
            if a <= b { a } else { b }
        } else {
            if a >= b { a } else { b }
        }
    }
}

/// Row `r` with every column of `cs` replaced by its `k`-th element.
pub open spec fn zip_set(r: Seq<ValueV>, cs: Seq<int>, k: int) -> Seq<ValueV> {
    Seq::new(r.len(), |j: int| if cs.contains(j) { list_elem(r[j], k) } else { r[j] })
}

pub open spec fn zip_row(r: Seq<ValueV>, cs: Seq<int>, shortest: bool) -> Seq<Seq<ValueV>> {
    Seq::new(zip_len(r, cs, shortest), |k: int| zip_set(r, cs, k))
}

/// Exploding the columns `cs` jointly: truncated to the shortest list, or
/// padded with nulls to the longest.
pub open spec fn zip_explode(rows: Seq<Seq<ValueV>>, cs: Seq<int>, shortest: bool) -> Seq<Seq<ValueV>>
    decreases rows.len(),
{
    if rows.len() == 0 {
        seq![]
    } else {
        zip_explode(rows.drop_last(), cs, shortest) + zip_row(rows.last(), cs, shortest)
    }
}

/// Whether a row holds a null cell.
pub open spec fn has_null(r: Seq<ValueV>) -> bool {
    exists|j: int| 0 <= j < r.len() && r[j] is Null
}

/// The rows without a null cell, in order.
pub open spec fn drop_nulls(rows: Seq<Seq<ValueV>>) -> Seq<Seq<ValueV>>
    decreases rows.len(),
{
    if rows.len() == 0 {
        seq![]
    } else if has_null(rows.last()) {
        drop_nulls(rows.drop_last())
    } else {
        drop_nulls(rows.drop_last()).push(rows.last())
    }
}

/// The first occurrence of each row, in order.
pub open spec fn unique_first(rows: Seq<Seq<ValueV>>) -> Seq<Seq<ValueV>>
    decreases rows.len(),
{
    if rows.len() == 0 {
        seq![]
    } else {
        let p = unique_first(rows.drop_last());
        if p.contains(rows.last()) {
            p
        } else {
            p.push(rows.last())
        }
    }
}

pub fn list_len_of(v: &Value) -> (r: usize)
    ensures
        r == list_len(v@),
{
    match v {
        Value::Null => 0,
        Value::Item(_) => 1,
        Value::List(s) => s.len(),
    }
}

pub fn list_elem_of(v: &Value, k: usize) -> (r: Value)
    ensures
        r@ == list_elem(v@, k as int),
{
    match v {
        Value::Null => Value::Null,
        Value::Item(x) => if k == 0 { Value::Item(x.copy()) } else { Value::Null },
        Value::List(s) => if k < s.len() { Value::Item(s[k].copy()) } else { Value::Null },
    }
}

/// A copy of `r` with cell `c` replaced by `v`.
pub fn with_cell(r: &Vec<Value>, c: usize, v: Value) -> (o: Vec<Value>)
    requires
        c < r.len(),
    ensures
        row_view(o@) == row_view(r@).update(c as int, v@),
{
    let mut o = copy_row(r);
    o.set(c, v);
    proof {
        assert(row_view(o@) =~= row_view(r@).update(c as int, v@));
    }
    o
}

/// Explodes column `c`.
pub fn explode_column(rows: &Vec<Vec<Value>>, c: usize) -> (out: Vec<Vec<Value>>)
    requires
        forall|i: int| 0 <= i < rows@.len() ==> c < #[trigger] rows@[i]@.len(),
    ensures
        rows_view(out@) == explode_col(rows_view(rows@), c as int),
{
    let ghost rv = rows_view(rows@);
    let mut out: Vec<Vec<Value>> = Vec::new();
    let mut i: usize = 0;
    while i < rows.len()
        invariant
            i <= rows.len(),
            rv == rows_view(rows@),
            forall|i: int| 0 <= i < rows@.len() ==> c < #[trigger] rows@[i]@.len(),
            rows_view(out@) == explode_col(rv.take(i as int), c as int),
        decreases rows.len() - i,
    {
        let row = &rows[i];
        let n = list_len_of(&row[c]);
        let ghost before = rows_view(out@);
        let mut k: usize = 0;
        while k < n
            invariant
                k <= n,
                n == list_len(row_view(row@)[c as int]),
                c < row@.len(),
                row == rows@[i as int],
                rows_view(out@) == before + explode_row(row_view(row@), c as int).take(k as int),
            decreases n - k,
        {
            let cell = list_elem_of(&row[c], k);
            let nr = with_cell(row, c, cell);
            proof {
                lemma_rows_view_push(out@, nr);
            }
            out.push(nr);
            proof {
                assert(explode_row(row_view(row@), c as int).take(k as int + 1) =~= explode_row(
                    row_view(row@),
                    c as int,
                ).take(k as int).push(row_view(nr@)));
            }
            k += 1;
        }
        proof {
            assert(rv.take(i as int + 1).drop_last() =~= rv.take(i as int));
            assert(rv[i as int] == row_view(row@));
            assert(explode_row(row_view(row@), c as int).take(k as int) =~= explode_row(
                row_view(row@),
                c as int,
            ));
        }
        i += 1;
    }
    proof {
        assert(rv.take(i as int) =~= rv);
    }
    out
}

/// Whether every row has more than `c` cells for each `c` of `cs`.
pub open spec fn cols_in_rows(rows: Seq<Seq<ValueV>>, cs: Seq<int>) -> bool {
    forall|i: int, j: int| 0 <= i < rows.len() && 0 <= j < cs.len() ==> 0 <= cs[j] < #[trigger] rows[i].len() && #[trigger] cs[j] >= 0
}

pub proof fn lemma_explode_col_width(rows: Seq<Seq<ValueV>>, c: int, n: nat)
    requires
        rows_have_width(rows, n),
        0 <= c < n,
    ensures
        rows_have_width(explode_col(rows, c), n),
    decreases rows.len(),
{
    if rows.len() > 0 {
        lemma_explode_col_width(rows.drop_last(), c, n);
        let a = explode_col(rows.drop_last(), c);
        let b = explode_row(rows.last(), c);
        assert forall|i: int| 0 <= i < (a + b).len() implies #[trigger] (a + b)[i].len() == n by {
            if i >= a.len() {
                assert((a + b)[i] == b[i - a.len()]);
            }
        }
    }
}

pub proof fn lemma_cross_width(rows: Seq<Seq<ValueV>>, cs: Seq<int>, n: nat)
    requires
        rows_have_width(rows, n),
        forall|j: int| 0 <= j < cs.len() ==> 0 <= #[trigger] cs[j] < n,
    ensures
        rows_have_width(cross_explode(rows, cs), n),
    decreases cs.len(),
{
    if cs.len() > 0 {
        lemma_cross_width(rows, cs.drop_last(), n);
        lemma_explode_col_width(cross_explode(rows, cs.drop_last()), cs.last(), n);
    }
}

pub proof fn lemma_rows_view_width(rows: Seq<Vec<Value>>, n: nat)
    ensures
        rows_have_width(rows_view(rows), n) <==> forall|i: int| 0 <= i < rows.len() ==> #[trigger] rows[i]@.len() == n,
{
    if rows_have_width(rows_view(rows), n) {
        assert forall|i: int| 0 <= i < rows.len() implies #[trigger] rows[i]@.len() == n by {
            assert(rows_view(rows)[i].len() == n);
        }
    }
    if forall|i: int| 0 <= i < rows.len() ==> #[trigger] rows[i]@.len() == n {
        assert forall|i: int| 0 <= i < rows_view(rows).len() implies #[trigger] rows_view(rows)[i].len() == n by {
            assert(rows[i]@.len() == n);
        }
    }
}

/// Explodes the columns `cs` one after the other (cartesian product).
pub fn explode_cross(rows: Vec<Vec<Value>>, cs: &Vec<usize>, Ghost(n): Ghost<nat>) -> (out: Vec<Vec<Value>>)
    requires
        forall|i: int| 0 <= i < rows@.len() ==> #[trigger] rows@[i]@.len() == n,
        forall|j: int| 0 <= j < cs@.len() ==> #[trigger] cs@[j] < n,
    ensures
        rows_view(out@) == cross_explode(rows_view(rows@), cs@.map_values(|c: usize| c as int)),
        forall|i: int| 0 <= i < out@.len() ==> #[trigger] out@[i]@.len() == n,
{
    let ghost ics = cs@.map_values(|c: usize| c as int);
    let ghost rv = rows_view(rows@);
    let mut cur = rows;
    let mut j: usize = 0;
    while j < cs.len()
        invariant
            j <= cs.len(),
            ics == cs@.map_values(|c: usize| c as int),
            forall|j: int| 0 <= j < cs@.len() ==> #[trigger] cs@[j] < n,
            rows_view(cur@) == cross_explode(rv, ics.take(j as int)),
            forall|i: int| 0 <= i < cur@.len() ==> #[trigger] cur@[i]@.len() == n,
        decreases cs.len() - j,
    {
        let next = explode_column(&cur, cs[j]);
        proof {
            assert(ics.take(j as int + 1).drop_last() =~= ics.take(j as int));
            assert(ics.take(j as int + 1).last() == cs@[j as int] as int);
            lemma_rows_view_width(cur@, n);
            lemma_explode_col_width(rows_view(cur@), cs@[j as int] as int, n);
            lemma_rows_view_width(next@, n);
        }
        cur = next;
        j += 1;
    }
    proof {
        assert(ics.take(j as int) =~= ics);
    }
    cur
}

pub fn contains_index(cs: &Vec<usize>, j: usize) -> (r: bool)
    ensures
        r == cs@.map_values(|c: usize| c as int).contains(j as int),
{
    let ghost ics = cs@.map_values(|c: usize| c as int);
    let mut k: usize = 0;
    while k < cs.len()
        invariant
            k <= cs.len(),
            ics == cs@.map_values(|c: usize| c as int),
            forall|m: int| 0 <= m < k ==> ics[m] != j as int,
        decreases cs.len() - k,
    {
        if cs[k] == j {
            proof {
                assert(ics[k as int] == j as int);
            }
            return true;
        }
        k += 1;
    }
    false
}

/// The number of rows a joint explosion makes of `r`.
pub fn zip_len_of(r: &Vec<Value>, cs: &Vec<usize>, shortest: bool) -> (n: usize)
    requires
        forall|j: int| 0 <= j < cs@.len() ==> #[trigger] cs@[j] < r@.len(),
    ensures
        n == zip_len(row_view(r@), cs@.map_values(|c: usize| c as int), shortest),
{
    let ghost ics = cs@.map_values(|c: usize| c as int);
    let ghost rv = row_view(r@);
    if cs.len() == 0 {
        return 1;
    }
    let mut acc: usize = list_len_of(&r[cs[0]]);
    proof {
        assert(ics.take(1).len() == 1);
        assert(ics.take(1)[0] == ics[0]);
    }
    let mut j: usize = 1;
    while j < cs.len()
        invariant
            1 <= j <= cs.len(),
            ics == cs@.map_values(|c: usize| c as int),
            rv == row_view(r@),
            forall|j: int| 0 <= j < cs@.len() ==> #[trigger] cs@[j] < r@.len(),
            acc == zip_len(rv, ics.take(j as int), shortest),
        decreases cs.len() - j,
    {
        let b = list_len_of(&r[cs[j]]);
        if shortest {
            if b < acc {
                acc = b;
            }
        } else {
            if b > acc {
                acc = b;
            }
        }
        proof {
            assert(ics.take(j as int + 1).drop_last() =~= ics.take(j as int));
            assert(ics.take(j as int + 1).last() == ics[j as int]);
        }
        j += 1;
    }
    proof {
        assert(ics.take(j as int) =~= ics);
    }
    acc
}

/// Row `r` with each column of `cs` replaced by its `k`-th element.
pub fn zip_set_of(r: &Vec<Value>, cs: &Vec<usize>, k: usize) -> (o: Vec<Value>)
    ensures
        row_view(o@) == zip_set(row_view(r@), cs@.map_values(|c: usize| c as int), k as int),
        o@.len() == r@.len(),
{
    let ghost ics = cs@.map_values(|c: usize| c as int);
    let mut o: Vec<Value> = Vec::new();
    let mut j: usize = 0;
    while j < r.len()
        invariant
            j <= r.len(),
            o.len() == j,
            ics == cs@.map_values(|c: usize| c as int),
            forall|m: int| 0 <= m < j ==> (#[trigger] o@[m])@ == zip_set(row_view(r@), ics, k as int)[m],
        decreases r.len() - j,
    {
        if contains_index(cs, j) {
            o.push(list_elem_of(&r[j], k));
        } else {
            o.push(r[j].copy());
        }
        j += 1;
    }
    proof {
        assert(row_view(o@) =~= zip_set(row_view(r@), ics, k as int));
    }
    o
}

/// Explodes the columns `cs` jointly.
pub fn explode_zip(rows: &Vec<Vec<Value>>, cs: &Vec<usize>, shortest: bool) -> (out: Vec<Vec<Value>>)
    requires
        forall|i: int, j: int| 0 <= i < rows@.len() && 0 <= j < cs@.len() ==> #[trigger] cs@[j] < #[trigger] rows@[i]@.len(),
    ensures
        rows_view(out@) == zip_explode(rows_view(rows@), cs@.map_values(|c: usize| c as int), shortest),
        forall|i: int| 0 <= i < out@.len() ==> exists|m: int| 0 <= m < rows@.len() && #[trigger] out@[i]@.len() == rows@[m]@.len(),
{
    let ghost ics = cs@.map_values(|c: usize| c as int);
    let ghost rv = rows_view(rows@);
    let mut out: Vec<Vec<Value>> = Vec::new();
    let mut i: usize = 0;
    while i < rows.len()
        invariant
            i <= rows.len(),
            rv == rows_view(rows@),
            ics == cs@.map_values(|c: usize| c as int),
            forall|i: int, j: int| 0 <= i < rows@.len() && 0 <= j < cs@.len() ==> #[trigger] cs@[j] < #[trigger] rows@[i]@.len(),
            rows_view(out@) == zip_explode(rv.take(i as int), ics, shortest),
            forall|p: int| 0 <= p < out@.len() ==> exists|m: int| 0 <= m < rows@.len() && #[trigger] out@[p]@.len() == rows@[m]@.len(),
        decreases rows.len() - i,
    {
        let row = &rows[i];
        let n = zip_len_of(row, cs, shortest);
        let ghost before = rows_view(out@);
        let mut k: usize = 0;
        while k < n
            invariant
                k <= n,
                i < rows.len(),
                row == rows@[i as int],
                n == zip_len(row_view(row@), ics, shortest),
                ics == cs@.map_values(|c: usize| c as int),
                rows_view(out@) == before + zip_row(row_view(row@), ics, shortest).take(k as int),
                forall|p: int| 0 <= p < out@.len() ==> exists|m: int| 0 <= m < rows@.len() && #[trigger] out@[p]@.len() == rows@[m]@.len(),
            decreases n - k,
        {
            let nr = zip_set_of(row, cs, k);
            proof {
                lemma_rows_view_push(out@, nr);
                assert(zip_row(row_view(row@), ics, shortest).take(k as int + 1) =~= zip_row(
                    row_view(row@),
                    ics,
                    shortest,
                ).take(k as int).push(row_view(nr@)));
            }
            out.push(nr);
            proof {
                assert(out@[out@.len() - 1]@.len() == rows@[i as int]@.len());
            }
            k += 1;
        }
        proof {
            assert(rv.take(i as int + 1).drop_last() =~= rv.take(i as int));
            assert(rv[i as int] == row_view(row@));
            assert(zip_row(row_view(row@), ics, shortest).take(k as int) =~= zip_row(
                row_view(row@),
                ics,
                shortest,
            ));
        }
        i += 1;
    }
    proof {
        assert(rv.take(i as int) =~= rv);
    }
    out
}

pub fn row_has_null(r: &Vec<Value>) -> (b: bool)
    ensures
        b == has_null(row_view(r@)),
{
    let mut j: usize = 0;
    while j < r.len()
        invariant
            j <= r.len(),
            forall|m: int| 0 <= m < j ==> !(r@[m]@ is Null),
        decreases r.len() - j,
    {
        if r[j].is_null() {
            proof {
                assert(row_view(r@)[j as int] is Null);
            }
            return true;
        }
        j += 1;
    }
    proof {
        assert forall|m: int| 0 <= m < row_view(r@).len() implies !(row_view(r@)[m] is Null) by {
            assert(row_view(r@)[m] == r@[m]@);
        }
    }
    false
}

/// The rows of `rows` without a null cell.
pub fn drop_null_rows(rows: Vec<Vec<Value>>) -> (out: Vec<Vec<Value>>)
    ensures
        rows_view(out@) == drop_nulls(rows_view(rows@)),
        forall|i: int| 0 <= i < out@.len() ==> exists|m: int| 0 <= m < rows@.len() && #[trigger] out@[i]@.len() == rows@[m]@.len(),
{
    let ghost rv = rows_view(rows@);
    let mut out: Vec<Vec<Value>> = Vec::new();
    let mut i: usize = 0;
    while i < rows.len()
        invariant
            i <= rows.len(),
            rv == rows_view(rows@),
            rows_view(out@) == drop_nulls(rv.take(i as int)),
            forall|p: int| 0 <= p < out@.len() ==> exists|m: int| 0 <= m < rows@.len() && #[trigger] out@[p]@.len() == rows@[m]@.len(),
        decreases rows.len() - i,
    {
        proof {
            assert(rv.take(i as int + 1).drop_last() =~= rv.take(i as int));
            assert(rv.take(i as int + 1).last() == row_view(rows@[i as int]@));
        }
        if !row_has_null(&rows[i]) {
            let r = copy_row(&rows[i]);
            proof {
                lemma_rows_view_push(out@, r);
            }
            out.push(r);
            proof {
                assert(out@[out@.len() - 1]@.len() == rows@[i as int]@.len());
            }
        }
        i += 1;
    }
    proof {
        assert(rv.take(i as int) =~= rv);
    }
    out
}

pub fn contains_row(rows: &Vec<Vec<Value>>, r: &Vec<Value>) -> (b: bool)
    ensures
        b == rows_view(rows@).contains(row_view(r@)),
{
    let mut i: usize = 0;
    while i < rows.len()
        invariant
            i <= rows.len(),
            forall|m: int| 0 <= m < i ==> rows_view(rows@)[m] != row_view(r@),
        decreases rows.len() - i,
    {
        if same_row(&rows[i], r) {
            proof {
                assert(rows_view(rows@)[i as int] == row_view(r@));
            }
            return true;
        }
        i += 1;
    }
    false
}

/// The first occurrence of each row of `rows`, in order.
pub fn unique_rows(rows: Vec<Vec<Value>>) -> (out: Vec<Vec<Value>>)
    ensures
        rows_view(out@) == unique_first(rows_view(rows@)),
        forall|i: int| 0 <= i < out@.len() ==> exists|m: int| 0 <= m < rows@.len() && #[trigger] out@[i]@.len() == rows@[m]@.len(),
{
    let ghost rv = rows_view(rows@);
    let mut out: Vec<Vec<Value>> = Vec::new();
    let mut i: usize = 0;
    while i < rows.len()
        invariant
            i <= rows.len(),
            rv == rows_view(rows@),
            rows_view(out@) == unique_first(rv.take(i as int)),
            forall|p: int| 0 <= p < out@.len() ==> exists|m: int| 0 <= m < rows@.len() && #[trigger] out@[p]@.len() == rows@[m]@.len(),
        decreases rows.len() - i,
    {
        proof {
            assert(rv.take(i as int + 1).drop_last() =~= rv.take(i as int));
            assert(rv.take(i as int + 1).last() == row_view(rows@[i as int]@));
        }
        if !contains_row(&out, &rows[i]) {
            let r = copy_row(&rows[i]);
            proof {
                lemma_rows_view_push(out@, r);
            }
            out.push(r);
            proof {
                assert(out@[out@.len() - 1]@.len() == rows@[i as int]@.len());
            }
        }
        i += 1;
    }
    proof {
        assert(rv.take(i as int) =~= rv);
    }
    out
}

/// Deduplication keeps exactly the set of rows and leaves no duplicate.
pub proof fn lemma_unique_first(rows: Seq<Seq<ValueV>>)
    ensures
        unique_first(rows).to_set() == rows.to_set(),
        unique_first(rows).no_duplicates(),
    decreases rows.len(),
{
    if rows.len() > 0 {
        let p = unique_first(rows.drop_last());
        lemma_unique_first(rows.drop_last());
        assert(rows =~= rows.drop_last().push(rows.last()));
        rows.drop_last().lemma_push_to_set_commute(rows.last());
        if !p.contains(rows.last()) {
            p.lemma_push_to_set_commute(rows.last());
            assert forall|i: int, j: int| 0 <= i < p.push(rows.last()).len() && 0 <= j < p.push(rows.last()).len() && i != j
                implies p.push(rows.last())[i] != p.push(rows.last())[j] by {
                if i == p.len() {
                    assert(p.push(rows.last())[j] == p[j]);
                } else if j == p.len() {
                    assert(p.push(rows.last())[i] == p[i]);
                }
            }
        } else {
            assert(p.to_set().contains(rows.last()));
            assert(rows.to_set() =~= rows.drop_last().to_set().insert(rows.last()));
        }
    }
}

/// With a single list column the three list expanders agree: the cartesian
/// explosion equals the joint explosion truncated to the shortest list and
/// the joint explosion padded to the longest.
pub proof fn lemma_single_column_expanders_agree(rows: Seq<Seq<ValueV>>, c: int)
    requires
        0 <= c,
        forall|i: int| 0 <= i < rows.len() ==> c < #[trigger] rows[i].len(),
    ensures
        cross_explode(rows, seq![c]) == zip_explode(rows, seq![c], true),
        cross_explode(rows, seq![c]) == zip_explode(rows, seq![c], false),
    decreases rows.len(),
{
    let cs = seq![c];
    assert(cs.drop_last() =~= Seq::<int>::empty());
    assert(cross_explode(rows, cs.drop_last()) == rows);
    assert(cs.last() == c);
    assert(cross_explode(rows, cs) == explode_col(rows, c));
    lemma_explode_col_is_zip(rows, c, true);
    lemma_explode_col_is_zip(rows, c, false);
}

proof fn lemma_explode_col_is_zip(rows: Seq<Seq<ValueV>>, c: int, shortest: bool)
    requires
        0 <= c,
        forall|i: int| 0 <= i < rows.len() ==> c < #[trigger] rows[i].len(),
    ensures
        explode_col(rows, c) == zip_explode(rows, seq![c], shortest),
    decreases rows.len(),
{
    if rows.len() > 0 {
        let q = rows.drop_last();
        assert forall|i: int| 0 <= i < q.len() implies c < #[trigger] q[i].len() by {
            assert(q[i] == rows[i]);
        }
        lemma_explode_col_is_zip(q, c, shortest);
        let r = rows.last();
        assert(0 <= c < r.len()) by {
            assert(rows[rows.len() - 1] == r);
        }
        let cs = seq![c];
        assert(zip_len(r, cs, shortest) == list_len(r[c]));
        assert forall|k: int| 0 <= k < list_len(r[c]) implies #[trigger] explode_row(r, c)[k] == zip_row(r, cs, shortest)[k] by {
            assert(r.update(c, list_elem(r[c], k)) =~= zip_set(r, cs, k));
        }
        assert(explode_row(r, c) =~= zip_row(r, cs, shortest));
    }
}

/// Whether every exploded column of every row holds a list of length `n`.
pub open spec fn lists_of_length(rows: Seq<Seq<ValueV>>, cs: Seq<int>, n: nat) -> bool {
    forall|i: int, j: int| 0 <= i < rows.len() && 0 <= j < cs.len() ==> list_len(#[trigger] rows[i][#[trigger] cs[j]]) == n
}

proof fn lemma_zip_len_uniform(r: Seq<ValueV>, cs: Seq<int>, n: nat)
    requires
        cs.len() > 0,
        forall|j: int| 0 <= j < cs.len() ==> list_len(r[#[trigger] cs[j]]) == n,
    ensures
        zip_len(r, cs, true) == n,
        zip_len(r, cs, false) == n,
    decreases cs.len(),
{
    if cs.len() > 1 {
        let q = cs.drop_last();
        assert forall|j: int| 0 <= j < q.len() implies list_len(r[#[trigger] q[j]]) == n by {
            assert(q[j] == cs[j]);
        }
        lemma_zip_len_uniform(r, q, n);
        assert(list_len(r[cs.last()]) == n);
    } else {
        assert(list_len(r[cs[0]]) == n);
    }
}

/// The two joint expanders differ only where list lengths differ: when
/// every exploded list has the same length, truncating to the shortest and
/// padding to the longest give the same rows.
pub proof fn lemma_zip_expanders_agree_on_equal_lengths(rows: Seq<Seq<ValueV>>, cs: Seq<int>, n: nat)
    requires
        cs.len() > 0,
        lists_of_length(rows, cs, n),
    ensures
        zip_explode(rows, cs, true) == zip_explode(rows, cs, false),
    decreases rows.len(),
{
    if rows.len() > 0 {
        let q = rows.drop_last();
        assert forall|i: int, j: int| 0 <= i < q.len() && 0 <= j < cs.len() implies list_len(#[trigger] q[i][#[trigger] cs[j]]) == n by {
            assert(q[i] == rows[i]);
        }
        lemma_zip_expanders_agree_on_equal_lengths(q, cs, n);
        let r = rows.last();
        assert forall|j: int| 0 <= j < cs.len() implies list_len(r[#[trigger] cs[j]]) == n by {
            assert(r == rows[rows.len() - 1]);
        }
        lemma_zip_len_uniform(r, cs, n);
        assert(zip_row(r, cs, true) =~= zip_row(r, cs, false));
    }
}

} // verus!
