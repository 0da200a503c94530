//! Evaluation of a SPARQL algebra fragment over the triple store:
//! solution mappings, joins, unions, filters and graph construction.
use vstd::prelude::*;
use crate::value::{Scalar, ScalarV, Value, ValueV, row_view, rows_view, copy_row, copy_strings, same_row};
use crate::model::{RDFNodeType, NodeTypeV, xsd_string_iri};
use crate::ntriples::{lexical, lexical_string, push_lexical};
use crate::batch::{
    Batch, BatchV, names_view, lemma_rows_view_push, lemma_rows_view_width, rows_have_width,
    unique_first, unique_rows,
};
use crate::remap::{index_of, lemma_index_of, lemma_index_of_unique, find_key};
use crate::triplestore::{
    Triplestore, StoreV, TripleDFV, TripleTable, TableV, TableStorage, TriplesToAdd, TriplesToAddV,
    table_rows, concat_rows, dedup_table, absorbed, tdfs_view, to_add_view,
};
use crate::mapping::{new_call_uuid, MappingReport};

verus! {

/// A label of a node of the algebra tree.
#[derive(PartialEq, Eq, Structural, Clone, Copy, Debug)]
pub enum PathEntry {
    BgpPattern,
    JoinLeftSide,
    JoinRightSide,
    LeftJoinLeftSide,
    LeftJoinRightSide,
    LeftJoinExpression,
    UnionLeftSide,
    UnionRightSide,
    FilterInner,
    FilterExpression,
    ProjectInner,
    DistinctInner,
    SliceInner,
    MinusLeftSide,
    MinusRightSide,
    ExtendInner,
    OrderByInner,
    GroupInner,
    OrderingOperation,
    ConstructWhere,
}

/// The path from the root of the algebra tree to a node.
pub struct Context {
    pub path: Vec<PathEntry>,
}

impl Context {
    pub fn new() -> (r: Context)
        ensures
            r.path@.len() == 0,
    {
        Context { path: Vec::new() }
    }

    pub fn extension_with(&self, e: PathEntry) -> (r: Context)
        ensures
            r.path@ == self.path@.push(e),
    {
        let mut path: Vec<PathEntry> = Vec::new();
        let mut i: usize = 0;
        while i < self.path.len()
            invariant
                i <= self.path.len(),
                path@ == self.path@.take(i as int),
            decreases self.path.len() - i,
        {
            path.push(self.path[i]);
            proof {
                assert(self.path@.take(i as int + 1) =~= self.path@.take(i as int).push(self.path@[i as int]));
            }
            i += 1;
        }
        path.push(e);
        proof {
            assert(self.path@.take(i as int) =~= self.path@);
        }
        Context { path }
    }

    /// Whether two contexts have the same path.
    pub fn same(&self, o: &Context) -> (r: bool)
        ensures
            r == (self.path@ == o.path@),
    {
        if self.path.len() != o.path.len() {
            return false;
        }
        let mut i: usize = 0;
        while i < self.path.len()
            invariant
                i <= self.path.len(),
                self.path.len() == o.path.len(),
                forall|k: int| 0 <= k < i ==> self.path@[k] == o.path@[k],
            decreases self.path.len() - i,
        {
            if self.path[i] != o.path[i] {
                return false;
            }
            i += 1;
        }
        proof {
            assert(self.path@ =~= o.path@);
        }
        true
    }
}

/// Errors of query evaluation.
#[derive(Debug)]
pub enum SparqlError {
    ParseError(String),
    QueryTypeNotSupported,
    InconsistentDatatypes(String, RDFNodeType, RDFNodeType, Vec<PathEntry>),
    VariableNotFound(String, Vec<PathEntry>),
}

pub enum SparqlErrorV {
    ParseError(Seq<char>),
    QueryTypeNotSupported,
    InconsistentDatatypes(Seq<char>, NodeTypeV, NodeTypeV, Seq<PathEntry>),
    VariableNotFound(Seq<char>, Seq<PathEntry>),
}

impl View for SparqlError {
    type V = SparqlErrorV;

    open spec fn view(&self) -> SparqlErrorV {
        match self {
            SparqlError::ParseError(s) => SparqlErrorV::ParseError(s@),
            SparqlError::QueryTypeNotSupported => SparqlErrorV::QueryTypeNotSupported,
            SparqlError::InconsistentDatatypes(v, a, b, c) => SparqlErrorV::InconsistentDatatypes(v@, a@, b@, c@),
            SparqlError::VariableNotFound(v, c) => SparqlErrorV::VariableNotFound(v@, c@),
        }
    }
}

fn copy_path(p: &Vec<PathEntry>) -> (r: Vec<PathEntry>)
    ensures
        r@ == p@,
{
    let mut r: Vec<PathEntry> = Vec::new();
    let mut i: usize = 0;
    while i < p.len()
        invariant
            i <= p.len(),
            r@ == p@.take(i as int),
        decreases p.len() - i,
    {
        r.push(p[i]);
        proof {
            assert(p@.take(i as int + 1) =~= p@.take(i as int).push(p@[i as int]));
        }
        i += 1;
    }
    proof {
        assert(p@.take(i as int) =~= p@);
    }
    r
}

/// Solution mappings: a batch whose columns are the bound variables, with
/// the RDF type of each variable.
pub struct SolutionMappings {
    pub mappings: Batch,
    pub rdf_node_types: Vec<(String, RDFNodeType)>,
}

pub struct SolV {
    pub names: Seq<Seq<char>>,
    pub rows: Seq<Seq<ValueV>>,
    pub types: Seq<(Seq<char>, NodeTypeV)>,
}

pub open spec fn types_view(t: Seq<(String, RDFNodeType)>) -> Seq<(Seq<char>, NodeTypeV)> {
    t.map_values(|e: (String, RDFNodeType)| (e.0@, e.1@))
}

pub open spec fn type_keys(t: Seq<(Seq<char>, NodeTypeV)>) -> Seq<Seq<char>> {
    t.map_values(|e: (Seq<char>, NodeTypeV)| e.0)
}

impl View for SolutionMappings {
    type V = SolV;

    open spec fn view(&self) -> SolV {
        SolV { names: self.mappings@.names, rows: self.mappings@.rows, types: types_view(self.rdf_node_types@) }
    }
}

impl SolV {
    pub open spec fn wf(self) -> bool {
        rows_have_width(self.rows, self.names.len())
    }
}

impl SolutionMappings {
    pub open spec fn wf(&self) -> bool {
        self@.wf()
    }
}

/// The cells `r[j]` for each `j` of `cols`.
pub open spec fn pick(r: Seq<ValueV>, cols: Seq<int>) -> Seq<ValueV> {
    cols.map_values(|j: int| r[j])
}

/// The columns of `rn` that `ln` lacks, in order.
pub open spec fn extra_cols(ln: Seq<Seq<char>>, rn: Seq<Seq<char>>) -> Seq<int>
    decreases rn.len(),
{
    if rn.len() == 0 {
        seq![]
    } else {
        let p = extra_cols(ln, rn.drop_last());
        if index_of(ln, rn.last()) < 0 { p.push(rn.len() - 1) } else { p }
    }
}

/// Whether a left and a right row agree on every shared variable.
pub open spec fn compatible(ln: Seq<Seq<char>>, rn: Seq<Seq<char>>, lr: Seq<ValueV>, rr: Seq<ValueV>) -> bool {
    forall|j: int| 0 <= j < rn.len() && index_of(ln, #[trigger] rn[j]) >= 0 ==> lr[index_of(ln, rn[j])] == rr[j]
}

/// Whether a joined row passes the join's condition, if it has one.
pub open spec fn cond_holds(cond: Option<Expression>, names: Seq<Seq<char>>, types: Seq<(Seq<char>, NodeTypeV)>, r: Seq<ValueV>) -> bool {
    match cond {
        Some(e) => eval_spec(e, names, types, r) == bool_cell(true),
        None => true,
    }
}

/// The joined rows of one left row with the compatible right rows that
/// pass the condition.
pub open spec fn matches_of(ln: Seq<Seq<char>>, rn: Seq<Seq<char>>, lr: Seq<ValueV>, rrows: Seq<Seq<ValueV>>, cond: Option<Expression>, jt: Seq<(Seq<char>, NodeTypeV)>) -> Seq<Seq<ValueV>>
    decreases rrows.len(),
{
    if rrows.len() == 0 {
        seq![]
    } else {
        let p = matches_of(ln, rn, lr, rrows.drop_last(), cond, jt);
        let joined = lr + pick(rrows.last(), extra_cols(ln, rn));
        if compatible(ln, rn, lr, rrows.last()) && cond_holds(cond, union_names(ln, rn), jt, joined) {
            p.push(joined)
        } else {
            p
        }
    }
}

pub open spec fn nulls(n: nat) -> Seq<ValueV> {
    Seq::new(n, |i: int| ValueV::Null)
}

/// Inner join (`outer == false`) or left outer join of row sets.
pub open spec fn join_rows(ln: Seq<Seq<char>>, rn: Seq<Seq<char>>, lrows: Seq<Seq<ValueV>>, rrows: Seq<Seq<ValueV>>, outer: bool, cond: Option<Expression>, jt: Seq<(Seq<char>, NodeTypeV)>) -> Seq<Seq<ValueV>>
    decreases lrows.len(),
{
    if lrows.len() == 0 {
        seq![]
    } else {
        let p = join_rows(ln, rn, lrows.drop_last(), rrows, outer, cond, jt);
        let m = matches_of(ln, rn, lrows.last(), rrows, cond, jt);
        if outer && m.len() == 0 {
            p.push(lrows.last() + nulls(extra_cols(ln, rn).len()))
        } else {
            p + m
        }
    }
}

/// The types of `l`, extended by those of `r` for variables `l` lacks.
pub open spec fn merge_types(l: Seq<(Seq<char>, NodeTypeV)>, r: Seq<(Seq<char>, NodeTypeV)>) -> Seq<(Seq<char>, NodeTypeV)>
    decreases r.len(),
{
    if r.len() == 0 {
        l
    } else {
        let p = merge_types(l, r.drop_last());
        if index_of(type_keys(p), r.last().0) < 0 { p.push(r.last()) } else { p }
    }
}

/// Joining two solution mappings (inner, or left outer under a condition).
pub open spec fn join_spec(l: SolV, r: SolV, outer: bool, cond: Option<Expression>) -> SolV {
    SolV {
        names: union_names(l.names, r.names),
        rows: join_rows(l.names, r.names, l.rows, r.rows, outer, cond, merge_types(l.types, r.types)),
        types: merge_types(l.types, r.types),
    }
}

/// The position of the first `n` in `v`.
pub fn position(v: &Vec<String>, n: &String) -> (r: Option<usize>)
    ensures
        r matches Some(i) ==> i < v@.len() && i as int == index_of(names_view(v@), n@),
        r is None ==> index_of(names_view(v@), n@) == -1,
{
    let ghost ks = names_view(v@);
    let mut i: usize = 0;
    while i < v.len()
        invariant
            i <= v.len(),
            ks == names_view(v@),
            forall|k: int| 0 <= k < i ==> ks[k] != n@,
        decreases v.len() - i,
    {
        if v[i].eq(n) {
            proof {
                lemma_index_of_unique(ks, n@, i as int);
            }
            return Some(i);
        }
        i += 1;
    }
    proof {
        lemma_index_of(ks, n@);
        if index_of(ks, n@) >= 0 {
            assert(ks[index_of(ks, n@)] == n@);
        }
    }
    None
}

/// For each right column, its position among the left columns.
fn shared_positions(ln: &Vec<String>, rn: &Vec<String>) -> (r: Vec<Option<usize>>)
    ensures
        r@.len() == rn@.len(),
        forall|j: int| 0 <= j < rn@.len() ==> match #[trigger] r@[j] {
            Some(i) => i < ln@.len() && i as int == index_of(names_view(ln@), rn@[j]@),
            None => index_of(names_view(ln@), rn@[j]@) == -1,
        },
{
    let mut r: Vec<Option<usize>> = Vec::new();
    let mut j: usize = 0;
    while j < rn.len()
        invariant
            j <= rn.len(),
            r@.len() == j,
            forall|j: int| 0 <= j < r@.len() ==> match #[trigger] r@[j] {
                Some(i) => i < ln@.len() && i as int == index_of(names_view(ln@), rn@[j]@),
                None => index_of(names_view(ln@), rn@[j]@) == -1,
            },
        decreases rn.len() - j,
    {
        r.push(position(ln, &rn[j]));
        j += 1;
    }
    r
}

fn extra_columns(ln: &Vec<String>, rn: &Vec<String>) -> (r: Vec<usize>)
    ensures
        r@.map_values(|c: usize| c as int) == extra_cols(names_view(ln@), names_view(rn@)),
        forall|k: int| 0 <= k < r@.len() ==> #[trigger] r@[k] < rn@.len(),
{
    let ghost rv = names_view(rn@);
    let mut r: Vec<usize> = Vec::new();
    let mut j: usize = 0;
    while j < rn.len()
        invariant
            j <= rn.len(),
            rv == names_view(rn@),
            r@.map_values(|c: usize| c as int) == extra_cols(names_view(ln@), rv.take(j as int)),
            forall|k: int| 0 <= k < r@.len() ==> #[trigger] r@[k] < j,
        decreases rn.len() - j,
    {
        proof {
            assert(rv.take(j as int + 1).drop_last() =~= rv.take(j as int));
            assert(rv.take(j as int + 1).last() == rn@[j as int]@);
        }
        if position(ln, &rn[j]).is_none() {
            let ghost before = r@;
            r.push(j);
            proof {
                assert(r@.map_values(|c: usize| c as int) =~= before.map_values(|c: usize| c as int).push(j as int));
            }
        }
        j += 1;
    }
    proof {
        assert(rv.take(j as int) =~= rv);
    }
    r
}

fn compatible_exec(lidx: &Vec<Option<usize>>, lr: &Vec<Value>, rr: &Vec<Value>, Ghost(ln): Ghost<Seq<Seq<char>>>, Ghost(rn): Ghost<Seq<Seq<char>>>) -> (b: bool)
    requires
        lidx@.len() == rn.len(),
        rr@.len() == rn.len(),
        lr@.len() == ln.len(),
        forall|j: int| 0 <= j < rn.len() ==> match #[trigger] lidx@[j] {
            Some(i) => i < ln.len() && i as int == index_of(ln, rn[j]),
            None => index_of(ln, rn[j]) == -1,
        },
    ensures
        b == compatible(ln, rn, row_view(lr@), row_view(rr@)),
{
    let mut j: usize = 0;
    while j < lidx.len()
        invariant
            j <= lidx.len(),
            lidx@.len() == rn.len(),
            rr@.len() == rn.len(),
            lr@.len() == ln.len(),
            forall|j: int| 0 <= j < rn.len() ==> match #[trigger] lidx@[j] {
                Some(i) => i < ln.len() && i as int == index_of(ln, rn[j]),
                None => index_of(ln, rn[j]) == -1,
            },
            forall|k: int| 0 <= k < j && index_of(ln, #[trigger] rn[k]) >= 0 ==> row_view(lr@)[index_of(ln, rn[k])] == row_view(rr@)[k],
        decreases lidx.len() - j,
    {
        match lidx[j] {
            Some(i) => {
                if !lr[i].same(&rr[j]) {
                    proof {
                        assert(lidx@[j as int] == Some(i));
                        assert(!compatible(ln, rn, row_view(lr@), row_view(rr@)));
                    }
                    return false;
                }
            },
            None => {
                proof {
                    assert(lidx@[j as int] is None);
                }
            },
        }
        proof {
            assert(lidx@[j as int] matches Some(i) ==> index_of(ln, rn[j as int]) == i);
        }
        j += 1;
    }
    true
}

fn pick_exec(r: &Vec<Value>, cols: &Vec<usize>) -> (o: Vec<Value>)
    requires
        forall|k: int| 0 <= k < cols@.len() ==> #[trigger] cols@[k] < r@.len(),
    ensures
        row_view(o@) == pick(row_view(r@), cols@.map_values(|c: usize| c as int)),
        o@.len() == cols@.len(),
{
    let mut o: Vec<Value> = Vec::new();
    let mut k: usize = 0;
    while k < cols.len()
        invariant
            k <= cols.len(),
            o@.len() == k,
            forall|k: int| 0 <= k < cols@.len() ==> #[trigger] cols@[k] < r@.len(),
            forall|m: int| 0 <= m < k ==> (#[trigger] o@[m])@ == r@[cols@[m] as int]@,
        decreases cols.len() - k,
    {
        o.push(r[cols[k]].copy());
        k += 1;
    }
    proof {
        assert(row_view(o@) =~= pick(row_view(r@), cols@.map_values(|c: usize| c as int)));
    }
    o
}

fn concat_row(a: &Vec<Value>, b: Vec<Value>) -> (o: Vec<Value>)
    ensures
        row_view(o@) == row_view(a@) + row_view(b@),
        o@.len() == a@.len() + b@.len(),
{
    let mut o = copy_row(a);
    let ghost oa = o@;
    let mut b = b;
    let ghost bb = b@;
    o.append(&mut b);
    proof {
        assert(row_view(o@) =~= row_view(oa) + row_view(bb));
    }
    o
}

fn null_row(n: usize) -> (o: Vec<Value>)
    ensures
        row_view(o@) == nulls(n as nat),
        o@.len() == n,
{
    let mut o: Vec<Value> = Vec::new();
    let mut k: usize = 0;
    while k < n
        invariant
            k <= n,
            o@.len() == k,
            forall|m: int| 0 <= m < k ==> (#[trigger] o@[m])@ == ValueV::Null,
        decreases n - k,
    {
        o.push(Value::Null);
        k += 1;
    }
    proof {
        assert(row_view(o@) =~= nulls(n as nat));
    }
    o
}

fn copy_type_entry(e: &(String, RDFNodeType)) -> (r: (String, RDFNodeType))
    ensures
        r.0@ == e.0@,
        r.1@ == e.1@,
{
    (e.0.clone(), e.1.copy())
}

pub fn merge_types_exec(l: &Vec<(String, RDFNodeType)>, r: &Vec<(String, RDFNodeType)>) -> (o: Vec<(String, RDFNodeType)>)
    ensures
        types_view(o@) == merge_types(types_view(l@), types_view(r@)),
{
    let ghost rv = types_view(r@);
    let mut o: Vec<(String, RDFNodeType)> = Vec::new();
    let mut i: usize = 0;
    while i < l.len()
        invariant
            i <= l.len(),
            o@.len() == i,
            forall|m: int| 0 <= m < i ==> (#[trigger] o@[m]).0@ == l@[m].0@ && o@[m].1@ == l@[m].1@,
        decreases l.len() - i,
    {
        o.push(copy_type_entry(&l[i]));
        i += 1;
    }
    proof {
        assert(types_view(o@) =~= types_view(l@));
        assert(rv.take(0) =~= Seq::<(Seq<char>, NodeTypeV)>::empty());
    }
    let mut j: usize = 0;
    while j < r.len()
        invariant
            j <= r.len(),
            rv == types_view(r@),
            types_view(o@) == merge_types(types_view(l@), rv.take(j as int)),
        decreases r.len() - j,
    {
        proof {
            assert(rv.take(j as int + 1).drop_last() =~= rv.take(j as int));
            assert(rv.take(j as int + 1).last() == (r@[j as int].0@, r@[j as int].1@));
            assert(type_keys(types_view(o@)) =~= o@.map_values(|e: (String, RDFNodeType)| e.0@));
        }
        if find_key(&o, &r[j].0).is_none() {
            let ghost before = o@;
            o.push(copy_type_entry(&r[j]));
            proof {
                assert(types_view(o@) =~= types_view(before).push((r@[j as int].0@, r@[j as int].1@)));
            }
        }
        j += 1;
    }
    proof {
        assert(rv.take(j as int) =~= rv);
    }
    o
}

/// Joins two solution mappings on their shared variables (see [`join_spec`]);
/// with `outer`, left rows without a partner are kept, padded with nulls.
pub fn join_solutions(l: &SolutionMappings, r: &SolutionMappings, outer: bool, cond: &Option<Expression>) -> (o: SolutionMappings)
    requires
        l.wf(),
        r.wf(),
    ensures
        o@ == join_spec(l@, r@, outer, *cond),
        o.wf(),
{
    let ghost ln = l@.names;
    let ghost rn = r@.names;
    let types = merge_types_exec(&l.rdf_node_types, &r.rdf_node_types);
    let lidx = shared_positions(&l.mappings.names, &r.mappings.names);
    let extra = extra_columns(&l.mappings.names, &r.mappings.names);
    let ghost ex = extra@.map_values(|c: usize| c as int);
    proof {
        lemma_rows_view_width(l.mappings.rows@, ln.len());
        lemma_rows_view_width(r.mappings.rows@, rn.len());
    }
    let mut names = copy_strings(&l.mappings.names);
    let mut k: usize = 0;
    while k < extra.len()
        invariant
            k <= extra.len(),
            names@.len() == ln.len() + k,
            ln == l@.names,
            rn == r@.names,
            ex == extra@.map_values(|c: usize| c as int),
            forall|k: int| 0 <= k < extra@.len() ==> #[trigger] extra@[k] < rn.len(),
            forall|m: int| 0 <= m < ln.len() ==> (#[trigger] names@[m])@ == ln[m],
            forall|m: int| 0 <= m < k ==> (#[trigger] names@[ln.len() + m])@ == rn[ex[m]],
        decreases extra.len() - k,
    {
        names.push(r.mappings.names[extra[k]].clone());
        k += 1;
    }
    proof {
        assert(k == extra.len());
        assert forall|m: int| 0 <= m < names@.len() implies #[trigger] names_view(names@)[m] == union_names(ln, rn)[m] by {
            if m >= ln.len() {
                assert(names@[ln.len() + (m - ln.len())]@ == rn[ex[m - ln.len()]]);
            }
        }
        assert(names_view(names@) =~= union_names(ln, rn));
    }
    let lrows = &l.mappings.rows;
    let rrows = &r.mappings.rows;
    let ghost lv = rows_view(lrows@);
    let ghost rv = rows_view(rrows@);
    let mut out: Vec<Vec<Value>> = Vec::new();
    let mut i: usize = 0;
    while i < lrows.len()
        invariant
            i <= lrows.len(),
            lv == rows_view(lrows@),
            rv == rows_view(rrows@),
            ln == l@.names,
            rn == r@.names,
            ex == extra@.map_values(|c: usize| c as int),
            ex == extra_cols(ln, rn),
            lidx@.len() == rn.len(),
            forall|j: int| 0 <= j < rn.len() ==> match #[trigger] lidx@[j] {
                Some(i) => i < ln.len() && i as int == index_of(ln, rn[j]),
                None => index_of(ln, rn[j]) == -1,
            },
            forall|k: int| 0 <= k < extra@.len() ==> #[trigger] extra@[k] < rn.len(),
            forall|i: int| 0 <= i < lrows@.len() ==> #[trigger] lrows@[i]@.len() == ln.len(),
            forall|i: int| 0 <= i < rrows@.len() ==> #[trigger] rrows@[i]@.len() == rn.len(),
            rows_view(out@) == join_rows(ln, rn, lv.take(i as int), rv, outer, *cond, types_view(types@)),
            names_view(names@) == union_names(ln, rn),
            names@.len() == ln.len() + extra@.len(),
            forall|m: int| 0 <= m < out@.len() ==> (#[trigger] out@[m])@.len() == ln.len() + extra@.len(),
        decreases lrows.len() - i,
    {
        let lr = &lrows[i];
        let ghost before = rows_view(out@);
        let mut found: usize = 0;
        let mut j: usize = 0;
        while j < rrows.len()
            invariant
                j <= rrows.len(),
                i < lrows.len(),
                lr == lrows@[i as int],
                lv == rows_view(lrows@),
                rv == rows_view(rrows@),
                ln == l@.names,
                rn == r@.names,
                ex == extra@.map_values(|c: usize| c as int),
                ex == extra_cols(ln, rn),
                lidx@.len() == rn.len(),
                forall|j: int| 0 <= j < rn.len() ==> match #[trigger] lidx@[j] {
                    Some(i) => i < ln.len() && i as int == index_of(ln, rn[j]),
                    None => index_of(ln, rn[j]) == -1,
                },
                forall|k: int| 0 <= k < extra@.len() ==> #[trigger] extra@[k] < rn.len(),
                forall|i: int| 0 <= i < lrows@.len() ==> #[trigger] lrows@[i]@.len() == ln.len(),
                forall|i: int| 0 <= i < rrows@.len() ==> #[trigger] rrows@[i]@.len() == rn.len(),
                found == matches_of(ln, rn, row_view(lr@), rv.take(j as int), *cond, types_view(types@)).len(),
                found <= j,
                names_view(names@) == union_names(ln, rn),
                names@.len() == ln.len() + extra@.len(),
                rows_view(out@) == before + matches_of(ln, rn, row_view(lr@), rv.take(j as int), *cond, types_view(types@)),
                forall|m: int| 0 <= m < out@.len() ==> (#[trigger] out@[m])@.len() == ln.len() + extra@.len(),
            decreases rrows.len() - j,
        {
            let rr = &rrows[j];
            proof {
                assert(rv.take(j as int + 1).drop_last() =~= rv.take(j as int));
                assert(rv.take(j as int + 1).last() == row_view(rr@));
            }
            if compatible_exec(&lidx, lr, rr, Ghost(ln), Ghost(rn)) {
                let tail = pick_exec(rr, &extra);
                let nr = concat_row(lr, tail);
                let pass = match cond {
                    Some(e) => match eval_expr(e, &names, &types, &nr) {
                        Value::Item(Scalar::Bool(b)) => b,
                        _ => false,
                    },
                    None => true,
                };
                if pass {
                    proof {
                        lemma_rows_view_push(out@, nr);
                        let mj = matches_of(ln, rn, row_view(lr@), rv.take(j as int), *cond, types_view(types@));
                        assert(row_view(nr@) == row_view(lr@) + pick(row_view(rr@), ex));
                        assert((before + mj).push(row_view(nr@)) =~= before + mj.push(row_view(nr@)));
                    }
                    out.push(nr);
                    found += 1;
                }
            }
            j += 1;
        }
        proof {
            assert(rv.take(j as int) =~= rv);
            assert(lv.take(i as int + 1).drop_last() =~= lv.take(i as int));
            assert(lv.take(i as int + 1).last() == row_view(lr@));
        }
        if outer && found == 0 {
            let pad = null_row(extra.len());
            let nr = concat_row(lr, pad);
            proof {
                lemma_rows_view_push(out@, nr);
                assert(matches_of(ln, rn, row_view(lr@), rv, *cond, types_view(types@)) =~= Seq::<Seq<ValueV>>::empty());
                assert(before + Seq::<Seq<ValueV>>::empty() =~= before);
            }
            out.push(nr);
        }
        i += 1;
    }
    proof {
        assert(lv.take(i as int) =~= lv);
    }
    let o = SolutionMappings { mappings: Batch { names, rows: out }, rdf_node_types: types };
    proof {
        lemma_rows_view_width(o.mappings.rows@, ln.len() + extra@.len());
    }
    o
}

/// The union's columns: the left ones, then the right ones the left lacks.
pub open spec fn union_names(ln: Seq<Seq<char>>, rn: Seq<Seq<char>>) -> Seq<Seq<char>> {
    ln + extra_cols(ln, rn).map_values(|j: int| rn[j])
}

/// A right row laid out under the union's columns, null where it has no cell.
pub open spec fn align_row(un: Seq<Seq<char>>, rn: Seq<Seq<char>>, rr: Seq<ValueV>) -> Seq<ValueV> {
    Seq::new(un.len(), |k: int| if index_of(rn, un[k]) >= 0 { rr[index_of(rn, un[k])] } else { ValueV::Null })
}

/// The first variable typed differently on the two sides, if any.
pub open spec fn type_conflict(l: Seq<(Seq<char>, NodeTypeV)>, r: Seq<(Seq<char>, NodeTypeV)>) -> Option<int>
    decreases r.len(),
{
    if r.len() == 0 {
        None
    } else {
        match type_conflict(l, r.drop_last()) {
            Some(k) => Some(k),
            None => {
                let li = index_of(type_keys(l), r.last().0);
                if li >= 0 && l[li].1 != r.last().1 { Some(r.len() - 1) } else { None }
            },
        }
    }
}

/// The union of two solution mappings, or the first type conflict.
pub open spec fn union_spec(l: SolV, r: SolV, ctx: Seq<PathEntry>) -> Result<SolV, SparqlErrorV> {
    match type_conflict(l.types, r.types) {
        Some(k) => Err(SparqlErrorV::InconsistentDatatypes(r.types[k].0, l.types[index_of(type_keys(l.types), r.types[k].0)].1, r.types[k].1, ctx)),
        None => {
            let un = union_names(l.names, r.names);
            Ok(SolV {
                names: un,
                rows: l.rows.map_values(|lr: Seq<ValueV>| lr + nulls((un.len() - l.names.len()) as nat))
                    + r.rows.map_values(|rr: Seq<ValueV>| align_row(un, r.names, rr)),
                types: merge_types(l.types, r.types),
            })
        },
    }
}

fn union_exec(l: &SolutionMappings, r: &SolutionMappings, ctx: &Context) -> (o: Result<SolutionMappings, SparqlError>)
    requires
        l.wf(),
        r.wf(),
    ensures
        match o {
            Ok(s) => union_spec(l@, r@, ctx.path@) == Ok::<SolV, SparqlErrorV>(s@) && s.wf(),
            Err(e) => union_spec(l@, r@, ctx.path@) == Err::<SolV, SparqlErrorV>(e@),
        },
{
    let ghost ltv = types_view(l.rdf_node_types@);
    let ghost rtv = types_view(r.rdf_node_types@);
    proof {
        assert(type_keys(ltv) =~= l.rdf_node_types@.map_values(|e: (String, RDFNodeType)| e.0@));
        assert(rtv.take(0) =~= Seq::<(Seq<char>, NodeTypeV)>::empty());
    }
    let mut j: usize = 0;
    while j < r.rdf_node_types.len()
        invariant
            j <= r.rdf_node_types.len(),
            ltv == types_view(l.rdf_node_types@),
            rtv == types_view(r.rdf_node_types@),
            type_keys(ltv) == l.rdf_node_types@.map_values(|e: (String, RDFNodeType)| e.0@),
            type_conflict(ltv, rtv.take(j as int)) is None,
        decreases r.rdf_node_types.len() - j,
    {
        let (v, t) = (&r.rdf_node_types[j].0, &r.rdf_node_types[j].1);
        proof {
            assert(rtv.take(j as int + 1).drop_last() =~= rtv.take(j as int));
            assert(rtv.take(j as int + 1).last() == (v@, t@));
        }
        match find_key(&l.rdf_node_types, v) {
            Some(li) => {
                if !l.rdf_node_types[li].1.same(t) {
                    proof {
                        lemma_conflict_sticks(ltv, rtv, j as int + 1, rtv.len() as int);
                        assert(rtv.take(rtv.len() as int) =~= rtv);
                        assert(type_conflict(ltv, rtv) == Some(j as int));
                    }
                    return Err(SparqlError::InconsistentDatatypes(v.clone(), l.rdf_node_types[li].1.copy(), t.copy(), copy_path(&ctx.path)));
                }
            },
            None => {},
        }
        j += 1;
    }
    proof {
        assert(rtv.take(j as int) =~= rtv);
    }
    let ghost ln = l@.names;
    let ghost rn = r@.names;
    let extra = extra_columns(&l.mappings.names, &r.mappings.names);
    let ghost ex = extra@.map_values(|c: usize| c as int);
    let mut names = copy_strings(&l.mappings.names);
    let mut k: usize = 0;
    while k < extra.len()
        invariant
            k <= extra.len(),
            names@.len() == ln.len() + k,
            ln == l@.names,
            rn == r@.names,
            ex == extra@.map_values(|c: usize| c as int),
            forall|k: int| 0 <= k < extra@.len() ==> #[trigger] extra@[k] < rn.len(),
            forall|m: int| 0 <= m < ln.len() ==> (#[trigger] names@[m])@ == ln[m],
            forall|m: int| 0 <= m < k ==> (#[trigger] names@[ln.len() + m])@ == rn[ex[m]],
        decreases extra.len() - k,
    {
        names.push(r.mappings.names[extra[k]].clone());
        k += 1;
    }
    let ghost un = union_names(ln, rn);
    proof {
        assert forall|m: int| 0 <= m < names@.len() implies #[trigger] names_view(names@)[m] == un[m] by {
            if m >= ln.len() {
                assert(names@[ln.len() + (m - ln.len())]@ == rn[ex[m - ln.len()]]);
            }
        }
        assert(names_view(names@) =~= un);
        lemma_rows_view_width(l.mappings.rows@, ln.len());
        lemma_rows_view_width(r.mappings.rows@, rn.len());
    }
    let pad = extra.len();
    let mut rows: Vec<Vec<Value>> = Vec::new();
    let mut i: usize = 0;
    while i < l.mappings.rows.len()
        invariant
            i <= l.mappings.rows.len(),
            rows@.len() == i,
            un.len() == ln.len() + pad,
            ln == l@.names,
            forall|i: int| 0 <= i < l.mappings.rows@.len() ==> #[trigger] l.mappings.rows@[i]@.len() == ln.len(),
            forall|m: int| 0 <= m < i ==> row_view((#[trigger] rows@[m])@) == row_view(l.mappings.rows@[m]@) + nulls(pad as nat),
            forall|m: int| 0 <= m < i ==> (#[trigger] rows@[m])@.len() == un.len(),
        decreases l.mappings.rows.len() - i,
    {
        let nr = concat_row(&l.mappings.rows[i], null_row(pad));
        rows.push(nr);
        i += 1;
    }
    let ghost nl = rows@.len();
    let mut i2: usize = 0;
    while i2 < r.mappings.rows.len()
        invariant
            i2 <= r.mappings.rows.len(),
            rows@.len() == nl + i2,
            nl == l.mappings.rows@.len(),
            un == names_view(names@),
            un.len() == ln.len() + pad,
            rn == r@.names,
            forall|i: int| 0 <= i < r.mappings.rows@.len() ==> #[trigger] r.mappings.rows@[i]@.len() == rn.len(),
            forall|m: int| 0 <= m < nl ==> row_view((#[trigger] rows@[m])@) == row_view(l.mappings.rows@[m]@) + nulls(pad as nat),
            forall|m: int| 0 <= m < i2 ==> row_view((#[trigger] rows@[nl + m])@) == align_row(un, rn, row_view(r.mappings.rows@[m]@)),
            forall|m: int| 0 <= m < rows@.len() ==> (#[trigger] rows@[m])@.len() == un.len(),
        decreases r.mappings.rows.len() - i2,
    {
        let rr = &r.mappings.rows[i2];
        let mut nr: Vec<Value> = Vec::new();
        let mut c: usize = 0;
        while c < names.len()
            invariant
                c <= names.len(),
                nr@.len() == c,
                un == names_view(names@),
                rn == r@.names,
                rr@.len() == rn.len(),
                forall|m: int| 0 <= m < c ==> (#[trigger] nr@[m])@ == align_row(un, rn, row_view(rr@))[m],
            decreases names.len() - c,
        {
            match position(&r.mappings.names, &names[c]) {
                Some(p) => nr.push(rr[p].copy()),
                None => nr.push(Value::Null),
            }
            c += 1;
        }
        proof {
            assert(row_view(nr@) =~= align_row(un, rn, row_view(rr@)));
        }
        rows.push(nr);
        proof {
            assert(rows@[nl + i2 as int] == nr);
        }
        i2 += 1;
    }
    let types = merge_types_exec(&l.rdf_node_types, &r.rdf_node_types);
    let o = SolutionMappings { mappings: Batch { names, rows }, rdf_node_types: types };
    proof {
        let expect = l@.rows.map_values(|lr: Seq<ValueV>| lr + nulls((un.len() - ln.len()) as nat))
            + r@.rows.map_values(|rr: Seq<ValueV>| align_row(un, rn, rr));
        assert forall|m: int| 0 <= m < rows@.len() implies #[trigger] rows_view(rows@)[m] == expect[m] by {
            if m < nl {
                assert(l@.rows[m] == row_view(l.mappings.rows@[m]@));
            } else {
                assert(rows@[nl + (m - nl)] == rows@[m]);
                assert(r@.rows[m - nl] == row_view(r.mappings.rows@[m - nl]@));
            }
        }
        assert(rows_view(rows@) =~= expect);
        lemma_rows_view_width(rows@, un.len());
    }
    Ok(o)
}

proof fn lemma_conflict_sticks(l: Seq<(Seq<char>, NodeTypeV)>, r: Seq<(Seq<char>, NodeTypeV)>, m: int, n: int)
    requires
        1 <= m <= n <= r.len(),
        type_conflict(l, r.take(m)) is Some,
    ensures
        type_conflict(l, r.take(n)) == type_conflict(l, r.take(m)),
    decreases n - m,
{
    if m < n {
        lemma_conflict_sticks(l, r, m, n - 1);
        assert(r.take(n).drop_last() =~= r.take(n - 1));
    }
}

/// An expression of a FILTER or of a left join.
pub enum Expression {
    Variable(String),
    Literal(Scalar),
    And(Box<Expression>, Box<Expression>),
    Or(Box<Expression>, Box<Expression>),
    Not(Box<Expression>),
    Equal(Box<Expression>, Box<Expression>),
    Greater(Box<Expression>, Box<Expression>),
    Less(Box<Expression>, Box<Expression>),
    Bound(String),
    Add(Box<Expression>, Box<Expression>),
    Subtract(Box<Expression>, Box<Expression>),
    Multiply(Box<Expression>, Box<Expression>),
    If(Box<Expression>, Box<Expression>, Box<Expression>),
    Coalesce(Box<Expression>, Box<Expression>),
    Str(Box<Expression>),
    Datatype(Box<Expression>),
}

/// The datatype IRI a value shows by itself: strings, integers and
/// booleans; none for IRIs.
pub open spec fn value_datatype(v: ValueV) -> ValueV {
    match v {
        ValueV::Item(ScalarV::Text(_)) => ValueV::Item(ScalarV::Iri(xsd_string_iri())),
        ValueV::Item(ScalarV::Int(_)) => ValueV::Item(ScalarV::Iri(crate::model::xsd_long_iri())),
        ValueV::Item(ScalarV::Bool(_)) => ValueV::Item(ScalarV::Iri(crate::model::xsd_boolean_iri())),
        _ => ValueV::Null,
    }
}

/// An integer result, or null where it leaves the range of `i64`.
pub open spec fn int_cell(v: int) -> ValueV {
    if i64::MIN <= v <= i64::MAX { ValueV::Item(ScalarV::Int(v as i64)) } else { ValueV::Null }
}

pub open spec fn bool_cell(b: bool) -> ValueV {
    ValueV::Item(ScalarV::Bool(b))
}

/// The value of an expression on a row under columns `names`; null stands
/// for an evaluation error.
pub open spec fn eval_spec(e: Expression, names: Seq<Seq<char>>, types: Seq<(Seq<char>, NodeTypeV)>, r: Seq<ValueV>) -> ValueV
    decreases e,
{
    match e {
        Expression::Variable(v) => {
            let i = index_of(names, v@);
            if i >= 0 { r[i] } else { ValueV::Null }
        },
        Expression::Literal(s) => ValueV::Item(s@),
        Expression::And(a, b) => match (eval_spec(*a, names, types, r), eval_spec(*b, names, types, r)) {
            (ValueV::Item(ScalarV::Bool(x)), ValueV::Item(ScalarV::Bool(y))) => bool_cell(x && y),
            _ => ValueV::Null,
        },
        Expression::Or(a, b) => match (eval_spec(*a, names, types, r), eval_spec(*b, names, types, r)) {
            (ValueV::Item(ScalarV::Bool(x)), ValueV::Item(ScalarV::Bool(y))) => bool_cell(x || y),
            _ => ValueV::Null,
        },
        Expression::Not(a) => match eval_spec(*a, names, types, r) {
            ValueV::Item(ScalarV::Bool(x)) => bool_cell(!x),
            _ => ValueV::Null,
        },
        Expression::Equal(a, b) => match (eval_spec(*a, names, types, r), eval_spec(*b, names, types, r)) {
            (ValueV::Item(x), ValueV::Item(y)) => bool_cell(x == y),
            _ => ValueV::Null,
        },
        Expression::Greater(a, b) => match (eval_spec(*a, names, types, r), eval_spec(*b, names, types, r)) {
            (ValueV::Item(ScalarV::Int(x)), ValueV::Item(ScalarV::Int(y))) => bool_cell(x > y),
            _ => ValueV::Null,
        },
        Expression::Less(a, b) => match (eval_spec(*a, names, types, r), eval_spec(*b, names, types, r)) {
            (ValueV::Item(ScalarV::Int(x)), ValueV::Item(ScalarV::Int(y))) => bool_cell(x < y),
            _ => ValueV::Null,
        },
        Expression::Bound(v) => {
            let i = index_of(names, v@);
            bool_cell(i >= 0 && !(r[i] is Null))
        },
        Expression::Add(a, b) => match (eval_spec(*a, names, types, r), eval_spec(*b, names, types, r)) {
            (ValueV::Item(ScalarV::Int(x)), ValueV::Item(ScalarV::Int(y))) => int_cell(x + y),
            _ => ValueV::Null,
        },
        Expression::Subtract(a, b) => match (eval_spec(*a, names, types, r), eval_spec(*b, names, types, r)) {
            (ValueV::Item(ScalarV::Int(x)), ValueV::Item(ScalarV::Int(y))) => int_cell(x - y),
            _ => ValueV::Null,
        },
        Expression::Multiply(a, b) => match (eval_spec(*a, names, types, r), eval_spec(*b, names, types, r)) {
            (ValueV::Item(ScalarV::Int(x)), ValueV::Item(ScalarV::Int(y))) => int_cell(x * y),
            _ => ValueV::Null,
        },
        Expression::If(c, a, b) => match eval_spec(*c, names, types, r) {
            ValueV::Item(ScalarV::Bool(true)) => eval_spec(*a, names, types, r),
            ValueV::Item(ScalarV::Bool(false)) => eval_spec(*b, names, types, r),
            _ => ValueV::Null,
        },
        Expression::Coalesce(a, b) => {
            let x = eval_spec(*a, names, types, r);
            if x is Null { eval_spec(*b, names, types, r) } else { x }
        },
        Expression::Str(a) => match eval_spec(*a, names, types, r) {
            ValueV::Item(s) => ValueV::Item(ScalarV::Text(lexical(s))),
            _ => ValueV::Null,
        },
        Expression::Datatype(a) => {
            let x = eval_spec(*a, names, types, r);
            if x is Null {
                ValueV::Null
            } else {
                match *a {
                    Expression::Variable(v) => {
                        let i = index_of(type_keys(types), v@);
                        if i >= 0 && types[i].1 is Literal {
                            ValueV::Item(ScalarV::Iri(types[i].1->Literal_0))
                        } else {
                            value_datatype(x)
                        }
                    },
                    _ => value_datatype(x),
                }
            }
        },
    }
}

fn int_value(o: Option<i64>) -> (v: Value)
    ensures
        v@ == match o {
            Some(i) => ValueV::Item(ScalarV::Int(i)),
            None => ValueV::Null,
        },
{
    match o {
        Some(i) => Value::Item(Scalar::Int(i)),
        None => Value::Null,
    }
}

fn value_datatype_exec(v: &Value) -> (r: Value)
    ensures
        r@ == value_datatype(v@),
{
    match v {
        Value::Item(Scalar::Text(_)) => Value::Item(Scalar::Iri(crate::model::xsd_string())),
        Value::Item(Scalar::Int(_)) => Value::Item(Scalar::Iri(crate::model::xsd_long())),
        Value::Item(Scalar::Bool(_)) => Value::Item(Scalar::Iri(crate::model::xsd_boolean())),
        _ => Value::Null,
    }
}

fn eval_expr(e: &Expression, names: &Vec<String>, types: &Vec<(String, RDFNodeType)>, r: &Vec<Value>) -> (v: Value)
    requires
        r@.len() == names@.len(),
    ensures
        v@ == eval_spec(*e, names_view(names@), types_view(types@), row_view(r@)),
    decreases e,
{
    match e {
        Expression::Variable(x) => match position(names, x) {
            Some(i) => r[i].copy(),
            None => Value::Null,
        },
        Expression::Literal(s) => Value::Item(s.copy()),
        Expression::And(a, b) => {
            let x = eval_expr(a, names, types, r);
            let y = eval_expr(b, names, types, r);
            match (x, y) {
                (Value::Item(Scalar::Bool(x)), Value::Item(Scalar::Bool(y))) => Value::Item(Scalar::Bool(x && y)),
                _ => Value::Null,
            }
        },
        Expression::Or(a, b) => {
            let x = eval_expr(a, names, types, r);
            let y = eval_expr(b, names, types, r);
            match (x, y) {
                (Value::Item(Scalar::Bool(x)), Value::Item(Scalar::Bool(y))) => Value::Item(Scalar::Bool(x || y)),
                _ => Value::Null,
            }
        },
        Expression::Not(a) => {
            let x = eval_expr(a, names, types, r);
            match x {
                Value::Item(Scalar::Bool(x)) => Value::Item(Scalar::Bool(!x)),
                _ => Value::Null,
            }
        },
        Expression::Equal(a, b) => {
            let x = eval_expr(a, names, types, r);
            let y = eval_expr(b, names, types, r);
            match (&x, &y) {
                (Value::Item(p), Value::Item(q)) => Value::Item(Scalar::Bool(p.same(q))),
                _ => Value::Null,
            }
        },
        Expression::Greater(a, b) => {
            let x = eval_expr(a, names, types, r);
            let y = eval_expr(b, names, types, r);
            match (x, y) {
                (Value::Item(Scalar::Int(x)), Value::Item(Scalar::Int(y))) => Value::Item(Scalar::Bool(x > y)),
                _ => Value::Null,
            }
        },
        Expression::Less(a, b) => {
            let x = eval_expr(a, names, types, r);
            let y = eval_expr(b, names, types, r);
            match (x, y) {
                (Value::Item(Scalar::Int(x)), Value::Item(Scalar::Int(y))) => Value::Item(Scalar::Bool(x < y)),
                _ => Value::Null,
            }
        },
        Expression::Bound(x) => match position(names, x) {
            Some(i) => Value::Item(Scalar::Bool(!r[i].is_null())),
            None => Value::Item(Scalar::Bool(false)),
        },
        Expression::Add(a, b) => {
            let x = eval_expr(a, names, types, r);
            let y = eval_expr(b, names, types, r);
            match (x, y) {
                (Value::Item(Scalar::Int(x)), Value::Item(Scalar::Int(y))) => int_value(x.checked_add(y)),
                _ => Value::Null,
            }
        },
        Expression::Subtract(a, b) => {
            let x = eval_expr(a, names, types, r);
            let y = eval_expr(b, names, types, r);
            match (x, y) {
                (Value::Item(Scalar::Int(x)), Value::Item(Scalar::Int(y))) => int_value(x.checked_sub(y)),
                _ => Value::Null,
            }
        },
        Expression::Multiply(a, b) => {
            let x = eval_expr(a, names, types, r);
            let y = eval_expr(b, names, types, r);
            match (x, y) {
                (Value::Item(Scalar::Int(x)), Value::Item(Scalar::Int(y))) => int_value(x.checked_mul(y)),
                _ => Value::Null,
            }
        },
        Expression::If(c, a, b) => {
            let x = eval_expr(c, names, types, r);
            match x {
                Value::Item(Scalar::Bool(true)) => eval_expr(a, names, types, r),
                Value::Item(Scalar::Bool(false)) => eval_expr(b, names, types, r),
                _ => Value::Null,
            }
        },
        Expression::Coalesce(a, b) => {
            let x = eval_expr(a, names, types, r);
            if x.is_null() { eval_expr(b, names, types, r) } else { x }
        },
        Expression::Str(a) => {
            let x = eval_expr(a, names, types, r);
            match &x {
                Value::Item(s) => Value::Item(Scalar::Text(lexical_string(s))),
                _ => Value::Null,
            }
        },
        Expression::Datatype(a) => {
            let x = eval_expr(a, names, types, r);
            if x.is_null() {
                return Value::Null;
            }
            let from_type = match &**a {
                Expression::Variable(v) => {
                    proof {
                        assert(type_keys(types_view(types@)) =~= types@.map_values(|e: (String, RDFNodeType)| e.0@));
                    }
                    match find_key(types, v) {
                        Some(i) => match &types[i].1 {
                            RDFNodeType::Literal(dt) => Some(dt.clone()),
                            _ => None,
                        },
                        None => None,
                    }
                },
                _ => None,
            };
            match from_type {
                Some(dt) => Value::Item(Scalar::Iri(dt)),
                None => value_datatype_exec(&x),
            }
        },
    }
}

/// The rows on which the expression is true.
pub open spec fn filter_rows(e: Expression, names: Seq<Seq<char>>, types: Seq<(Seq<char>, NodeTypeV)>, rows: Seq<Seq<ValueV>>) -> Seq<Seq<ValueV>>
    decreases rows.len(),
{
    if rows.len() == 0 {
        seq![]
    } else {
        let p = filter_rows(e, names, types, rows.drop_last());
        if eval_spec(e, names, types, rows.last()) == bool_cell(true) { p.push(rows.last()) } else { p }
    }
}

fn filter_exec(e: &Expression, s: SolutionMappings) -> (o: SolutionMappings)
    requires
        s.wf(),
    ensures
        o@ == (SolV { rows: filter_rows(*e, s@.names, s@.types, s@.rows), ..s@ }),
        o.wf(),
{
    let SolutionMappings { mappings, rdf_node_types } = s;
    let Batch { names, rows } = mappings;
    let ghost nv = names_view(names@);
    let ghost rv = rows_view(rows@);
    proof {
        lemma_rows_view_width(rows@, nv.len());
    }
    let mut out: Vec<Vec<Value>> = Vec::new();
    let mut i: usize = 0;
    while i < rows.len()
        invariant
            i <= rows.len(),
            nv == names_view(names@),
            rv == rows_view(rows@),
            forall|i: int| 0 <= i < rows@.len() ==> #[trigger] rows@[i]@.len() == nv.len(),
            rows_view(out@) == filter_rows(*e, nv, types_view(rdf_node_types@), rv.take(i as int)),
            forall|m: int| 0 <= m < out@.len() ==> (#[trigger] out@[m])@.len() == nv.len(),
        decreases rows.len() - i,
    {
        proof {
            assert(rv.take(i as int + 1).drop_last() =~= rv.take(i as int));
            assert(rv.take(i as int + 1).last() == row_view(rows@[i as int]@));
        }
        let v = eval_expr(e, &names, &rdf_node_types, &rows[i]);
        let keep = match v {
            Value::Item(Scalar::Bool(b)) => b,
            _ => false,
        };
        if keep {
            let r = copy_row(&rows[i]);
            proof {
                lemma_rows_view_push(out@, r);
            }
            out.push(r);
        }
        i += 1;
    }
    proof {
        assert(rv.take(i as int) =~= rv);
        lemma_rows_view_width(out@, nv.len());
    }
    SolutionMappings { mappings: Batch { names, rows: out }, rdf_node_types }
}

/// Keeping the columns of `vars`, in their order.
pub open spec fn project_spec(s: SolV, vars: Seq<Seq<char>>, ctx: Seq<PathEntry>) -> Result<SolV, SparqlErrorV> {
    if exists|k: int| 0 <= k < vars.len() && index_of(s.names, #[trigger] vars[k]) < 0 {
        let k = choose|k: int| 0 <= k < vars.len() && index_of(s.names, #[trigger] vars[k]) < 0
            && forall|m: int| 0 <= m < k ==> index_of(s.names, #[trigger] vars[m]) >= 0;
        Err(SparqlErrorV::VariableNotFound(vars[k], ctx))
    } else {
        let cols = vars.map_values(|v: Seq<char>| index_of(s.names, v));
        Ok(SolV {
            names: vars,
            rows: s.rows.map_values(|r: Seq<ValueV>| pick(r, cols)),
            types: s.types.filter(|e: (Seq<char>, NodeTypeV)| vars.contains(e.0)),
        })
    }
}

fn project_exec(s: &SolutionMappings, vars: &Vec<String>, ctx: &Context) -> (o: Result<SolutionMappings, SparqlError>)
    requires
        s.wf(),
    ensures
        match o {
            Ok(p) => project_spec(s@, names_view(vars@), ctx.path@) == Ok::<SolV, SparqlErrorV>(p@) && p.wf(),
            Err(e) => project_spec(s@, names_view(vars@), ctx.path@) == Err::<SolV, SparqlErrorV>(e@),
        },
{
    let ghost vv = names_view(vars@);
    let ghost sn = s@.names;
    let mut cols: Vec<usize> = Vec::new();
    let mut k: usize = 0;
    while k < vars.len()
        invariant
            k <= vars.len(),
            vv == names_view(vars@),
            sn == s@.names,
            cols@.len() == k,
            forall|m: int| 0 <= m < k ==> index_of(sn, #[trigger] vv[m]) >= 0 && cols@[m] as int == index_of(sn, vv[m]),
            forall|m: int| 0 <= m < k ==> #[trigger] cols@[m] < sn.len(),
        decreases vars.len() - k,
    {
        match position(&s.mappings.names, &vars[k]) {
            Some(i) => cols.push(i),
            None => {
                proof {
                    let w = k as int;
                    assert(index_of(sn, vv[w]) < 0);
                    let c = choose|c: int| 0 <= c < vv.len() && index_of(sn, #[trigger] vv[c]) < 0
                        && forall|m: int| 0 <= m < c ==> index_of(sn, #[trigger] vv[m]) >= 0;
                    if c < w {
                        assert(index_of(sn, vv[c]) >= 0);
                    } else if c > w {
                        assert(index_of(sn, vv[w]) >= 0);
                    }
                }
                return Err(SparqlError::VariableNotFound(vars[k].clone(), copy_path(&ctx.path)));
            },
        }
        k += 1;
    }
    let ghost cv = cols@.map_values(|c: usize| c as int);
    proof {
        assert(cv =~= vv.map_values(|v: Seq<char>| index_of(sn, v)));
        lemma_rows_view_width(s.mappings.rows@, sn.len());
    }
    let mut rows: Vec<Vec<Value>> = Vec::new();
    let mut i: usize = 0;
    while i < s.mappings.rows.len()
        invariant
            i <= s.mappings.rows.len(),
            rows@.len() == i,
            cv == cols@.map_values(|c: usize| c as int),
            forall|m: int| 0 <= m < cols@.len() ==> #[trigger] cols@[m] < sn.len(),
            sn == s@.names,
            forall|i: int| 0 <= i < s.mappings.rows@.len() ==> #[trigger] s.mappings.rows@[i]@.len() == sn.len(),
            forall|m: int| 0 <= m < i ==> row_view((#[trigger] rows@[m])@) == pick(row_view(s.mappings.rows@[m]@), cv),
            forall|m: int| 0 <= m < i ==> (#[trigger] rows@[m])@.len() == cols@.len(),
        decreases s.mappings.rows.len() - i,
    {
        rows.push(pick_exec(&s.mappings.rows[i], &cols));
        i += 1;
    }
    let mut types: Vec<(String, RDFNodeType)> = Vec::new();
    let ghost tv = types_view(s.rdf_node_types@);
    let ghost f = |e: (Seq<char>, NodeTypeV)| vv.contains(e.0);
    let mut j: usize = 0;
    proof {
        assert(tv.take(0) =~= Seq::<(Seq<char>, NodeTypeV)>::empty());
        assert(tv.take(0).filter(f) =~= Seq::<(Seq<char>, NodeTypeV)>::empty());
        assert(vars@.map_values(|x: String| x@) == vv);
    }
    while j < s.rdf_node_types.len()
        invariant
            j <= s.rdf_node_types.len(),
            tv == types_view(s.rdf_node_types@),
            vv == names_view(vars@),
            vars@.map_values(|x: String| x@) == vv,
            f == (|e: (Seq<char>, NodeTypeV)| vv.contains(e.0)),
            types_view(types@) == tv.take(j as int).filter(f),
        decreases s.rdf_node_types.len() - j,
    {
        proof {
            assert(tv.take(j as int + 1).drop_last() =~= tv.take(j as int));
            reveal(Seq::filter);
            assert(tv.take(j as int + 1).last() == tv[j as int]);
        }
        if crate::triplestore::contains_string(vars, &s.rdf_node_types[j].0) {
            let ghost before = types@;
            types.push(copy_type_entry(&s.rdf_node_types[j]));
            proof {
                assert(types_view(types@) =~= types_view(before).push(tv[j as int]));
            }
        }
        j += 1;
    }
    proof {
        assert(tv.take(j as int) =~= tv);
        assert(!exists|k: int| 0 <= k < vv.len() && index_of(sn, #[trigger] vv[k]) < 0);
        assert forall|m: int| 0 <= m < rows@.len() implies #[trigger] rows_view(rows@)[m] == s@.rows.map_values(|r: Seq<ValueV>| pick(r, cv))[m] by {
            assert(s@.rows[m] == row_view(s.mappings.rows@[m]@));
        }
        assert(rows_view(rows@) =~= s@.rows.map_values(|r: Seq<ValueV>| pick(r, cv)));
        lemma_rows_view_width(rows@, vv.len());
    }
    let names = copy_strings(vars);
    Ok(SolutionMappings { mappings: Batch { names, rows }, rdf_node_types: types })
}

/// A term of a triple pattern.
pub enum TermPattern {
    Variable(String),
    Iri(String),
    Literal(Scalar),
}

pub struct TriplePattern {
    pub subject: TermPattern,
    pub predicate: TermPattern,
    pub object: TermPattern,
}

/// The fragment of the SPARQL algebra that the store evaluates.
pub enum GraphPattern {
    Bgp(Vec<TriplePattern>),
    Join(Box<GraphPattern>, Box<GraphPattern>),
    LeftJoin(Box<GraphPattern>, Box<GraphPattern>, Option<Expression>),
    Union(Box<GraphPattern>, Box<GraphPattern>),
    Filter(Expression, Box<GraphPattern>),
    Project(Box<GraphPattern>, Vec<String>),
    Distinct(Box<GraphPattern>),
    Slice(Box<GraphPattern>, usize, Option<usize>),
    Minus(Box<GraphPattern>, Box<GraphPattern>),
    Extend(Box<GraphPattern>, String, Expression),
    OrderBy(Box<GraphPattern>, Vec<OrderExpression>),
    Group(Box<GraphPattern>, Vec<String>, Vec<(String, Aggregate)>),
}

pub open spec fn term_var(t: TermPattern) -> Option<Seq<char>> {
    match t {
        TermPattern::Variable(v) => Some(v@),
        _ => None,
    }
}

/// The cell a constant term stands for.
pub open spec fn term_cell(t: TermPattern) -> ValueV {
    match t {
        TermPattern::Variable(_) => ValueV::Null,
        TermPattern::Iri(x) => ValueV::Item(ScalarV::Iri(x@)),
        TermPattern::Literal(s) => ValueV::Item(s@),
    }
}

pub open spec fn push_var(vs: Seq<Seq<char>>, t: TermPattern) -> Seq<Seq<char>> {
    match term_var(t) {
        Some(v) => if vs.contains(v) { vs } else { vs.push(v) },
        None => vs,
    }
}

/// The distinct variables of a triple pattern: subject, predicate, object.
pub open spec fn pattern_vars(tp: TriplePattern) -> Seq<Seq<char>> {
    push_var(push_var(push_var(seq![], tp.subject), tp.predicate), tp.object)
}

/// The cell variable `v` takes in a triple `(s, p, o)`: that of its first slot.
pub open spec fn var_cell(tp: TriplePattern, v: Seq<char>, s: ValueV, p: ValueV, o: ValueV) -> ValueV {
    if term_var(tp.subject) == Some(v) { s } else if term_var(tp.predicate) == Some(v) { p } else { o }
}

pub open spec fn slot_ok(tp: TriplePattern, t: TermPattern, cell: ValueV, s: ValueV, p: ValueV, o: ValueV) -> bool {
    match term_var(t) {
        Some(v) => var_cell(tp, v, s, p, o) == cell,
        None => term_cell(t) == cell,
    }
}

/// The solution a stored triple gives a pattern, if it matches.
pub open spec fn match_triple(tp: TriplePattern, s: ValueV, p: ValueV, o: ValueV) -> Option<Seq<ValueV>> {
    if slot_ok(tp, tp.subject, s, s, p, o) && slot_ok(tp, tp.predicate, p, s, p, o) && slot_ok(tp, tp.object, o, s, p, o) {
        Some(pattern_vars(tp).map_values(|v: Seq<char>| var_cell(tp, v, s, p, o)))
    } else {
        None
    }
}

/// The solutions of a pattern over the rows of one bucket.
pub open spec fn table_matches(tp: TriplePattern, pred: Seq<char>, rows: Seq<Seq<ValueV>>) -> Seq<Seq<ValueV>>
    decreases rows.len(),
{
    if rows.len() == 0 {
        seq![]
    } else {
        let prev = table_matches(tp, pred, rows.drop_last());
        let r = rows.last();
        if r.len() >= 2 {
            match match_triple(tp, r[0], ValueV::Item(ScalarV::Iri(pred)), r[1]) {
                Some(out) => prev.push(out),
                None => prev,
            }
        } else {
            prev
        }
    }
}

/// Whether a bucket can hold triples of the pattern: its predicate fits.
pub open spec fn table_selected(tp: TriplePattern, t: TableV) -> bool {
    match tp.predicate {
        TermPattern::Iri(x) => t.predicate == x@,
        _ => true,
    }
}

/// The solutions of a pattern over the buckets, one bucket after the other.
pub open spec fn pattern_rows(tp: TriplePattern, ts: Seq<TableV>) -> Seq<Seq<ValueV>>
    decreases ts.len(),
{
    if ts.len() == 0 {
        seq![]
    } else {
        let prev = pattern_rows(tp, ts.drop_last());
        if table_selected(tp, ts.last()) {
            prev + table_matches(tp, ts.last().predicate, table_rows(ts.last()))
        } else {
            prev
        }
    }
}

/// The object type of the first selected bucket (unknown without one).
pub open spec fn object_type_of(tp: TriplePattern, ts: Seq<TableV>) -> NodeTypeV
    decreases ts.len(),
{
    if ts.len() == 0 {
        NodeTypeV::Unknown
    } else if table_selected(tp, ts[0]) {
        ts[0].object_type
    } else {
        object_type_of(tp, ts.subrange(1, ts.len() as int))
    }
}

/// The type of variable `v` of a pattern: IRI as subject or predicate,
/// the buckets' object type as object.
pub open spec fn var_type(tp: TriplePattern, v: Seq<char>, ts: Seq<TableV>) -> NodeTypeV {
    if term_var(tp.subject) == Some(v) || term_var(tp.predicate) == Some(v) { NodeTypeV::IRI } else { object_type_of(tp, ts) }
}

pub open spec fn pattern_spec(tp: TriplePattern, ts: Seq<TableV>) -> SolV {
    SolV {
        names: pattern_vars(tp),
        rows: pattern_rows(tp, ts),
        types: pattern_vars(tp).map_values(|v: Seq<char>| (v, var_type(tp, v, ts))),
    }
}

/// The solution with no variable and one row.
pub open spec fn unit_sol() -> SolV {
    SolV { names: seq![], rows: seq![seq![]], types: seq![] }
}

/// A basic graph pattern: its triple patterns joined in order.
pub open spec fn bgp_spec(ps: Seq<TriplePattern>, ts: Seq<TableV>) -> SolV
    decreases ps.len(),
{
    if ps.len() == 0 {
        unit_sol()
    } else {
        join_spec(bgp_spec(ps.drop_last(), ts), pattern_spec(ps.last(), ts), false, None)
    }
}

pub open spec fn slice_rows(rows: Seq<Seq<ValueV>>, offset: nat, limit: Option<usize>) -> Seq<Seq<ValueV>> {
    let rest = if offset <= rows.len() { rows.skip(offset as int) } else { seq![] };
    match limit {
        Some(n) => if n <= rest.len() { rest.take(n as int) } else { rest },
        None => rest,
    }
}

/// The solutions of a graph pattern over the buckets `ts`.
pub open spec fn eval_pattern(gp: GraphPattern, ts: Seq<TableV>, ctx: Seq<PathEntry>) -> Result<SolV, SparqlErrorV>
    decreases gp,
{
    match gp {
        GraphPattern::Bgp(ps) => Ok(bgp_spec(ps@, ts)),
        GraphPattern::Join(a, b) => match eval_pattern(*a, ts, ctx.push(PathEntry::JoinLeftSide)) {
            Err(e) => Err(e),
            Ok(l) => match eval_pattern(*b, ts, ctx.push(PathEntry::JoinRightSide)) {
                Err(e) => Err(e),
                Ok(r) => Ok(join_spec(l, r, false, None)),
            },
        },
        GraphPattern::LeftJoin(a, b, cond) => match eval_pattern(*a, ts, ctx.push(PathEntry::LeftJoinLeftSide)) {
            Err(e) => Err(e),
            Ok(l) => match eval_pattern(*b, ts, ctx.push(PathEntry::LeftJoinRightSide)) {
                Err(e) => Err(e),
                Ok(r) => Ok(join_spec(l, r, true, cond)),
            },
        },
        GraphPattern::Union(a, b) => match eval_pattern(*a, ts, ctx.push(PathEntry::UnionLeftSide)) {
            Err(e) => Err(e),
            Ok(l) => match eval_pattern(*b, ts, ctx.push(PathEntry::UnionRightSide)) {
                Err(e) => Err(e),
                Ok(r) => union_spec(l, r, ctx),
            },
        },
        GraphPattern::Filter(e, a) => match eval_pattern(*a, ts, ctx.push(PathEntry::FilterInner)) {
            Err(err) => Err(err),
            Ok(s) => Ok(SolV { rows: filter_rows(e, s.names, s.types, s.rows), ..s }),
        },
        GraphPattern::Project(a, vars) => match eval_pattern(*a, ts, ctx.push(PathEntry::ProjectInner)) {
            Err(e) => Err(e),
            Ok(s) => project_spec(s, names_view(vars@), ctx),
        },
        GraphPattern::Distinct(a) => match eval_pattern(*a, ts, ctx.push(PathEntry::DistinctInner)) {
            Err(e) => Err(e),
            Ok(s) => Ok(SolV { rows: unique_first(s.rows), ..s }),
        },
        GraphPattern::Slice(a, offset, limit) => match eval_pattern(*a, ts, ctx.push(PathEntry::SliceInner)) {
            Err(e) => Err(e),
            Ok(s) => Ok(SolV { rows: slice_rows(s.rows, offset as nat, limit), ..s }),
        },
        GraphPattern::Minus(a, b) => match eval_pattern(*a, ts, ctx.push(PathEntry::MinusLeftSide)) {
            Err(e) => Err(e),
            Ok(l) => match eval_pattern(*b, ts, ctx.push(PathEntry::MinusRightSide)) {
                Err(e) => Err(e),
                Ok(r) => Ok(minus_spec(l, r)),
            },
        },
        GraphPattern::Extend(a, v, e) => match eval_pattern(*a, ts, ctx.push(PathEntry::ExtendInner)) {
            Err(err) => Err(err),
            Ok(s) => Ok(extend_spec(s, v@, e)),
        },
        GraphPattern::OrderBy(a, os) => match eval_pattern(*a, ts, ctx.push(PathEntry::OrderByInner)) {
            Err(err) => Err(err),
            Ok(s) => Ok(order_spec(s, os@)),
        },
        GraphPattern::Group(a, keys, aggs) => match eval_pattern(*a, ts, ctx.push(PathEntry::GroupInner)) {
            Err(err) => Err(err),
            Ok(s) => group_spec(s, names_view(keys@), aggs_view(aggs@), ctx),
        },
    }
}

/// The left rows that no right row is compatible with.
pub open spec fn minus_rows(ln: Seq<Seq<char>>, rn: Seq<Seq<char>>, lrows: Seq<Seq<ValueV>>, rrows: Seq<Seq<ValueV>>) -> Seq<Seq<ValueV>>
    decreases lrows.len(),
{
    if lrows.len() == 0 {
        seq![]
    } else {
        let p = minus_rows(ln, rn, lrows.drop_last(), rrows);
        if matches_of(ln, rn, lrows.last(), rrows, None, seq![]).len() == 0 { p.push(lrows.last()) } else { p }
    }
}

/// SPARQL MINUS: without a shared variable the left side is kept whole.
pub open spec fn minus_spec(l: SolV, r: SolV) -> SolV {
    if extra_cols(l.names, r.names).len() == r.names.len() {
        l
    } else {
        SolV { rows: minus_rows(l.names, r.names, l.rows, r.rows), ..l }
    }
}

/// The type of an expression's values.
pub open spec fn expr_type(e: Expression, types: Seq<(Seq<char>, NodeTypeV)>) -> NodeTypeV {
    match e {
        Expression::Variable(v) => {
            let i = index_of(type_keys(types), v@);
            if i >= 0 { types[i].1 } else { NodeTypeV::Unknown }
        },
        Expression::Literal(s) => crate::mapping::scalar_type(s@),
        Expression::Add(..) | Expression::Subtract(..) | Expression::Multiply(..) => NodeTypeV::Literal(crate::model::xsd_long_iri()),
        Expression::If(_, a, _) => match *a {
            Expression::Variable(v) => {
                let i = index_of(type_keys(types), v@);
                if i >= 0 { types[i].1 } else { NodeTypeV::Unknown }
            },
            Expression::Literal(s) => crate::mapping::scalar_type(s@),
            _ => NodeTypeV::Unknown,
        },
        Expression::Coalesce(a, _) => match *a {
            Expression::Variable(v) => {
                let i = index_of(type_keys(types), v@);
                if i >= 0 { types[i].1 } else { NodeTypeV::Unknown }
            },
            Expression::Literal(s) => crate::mapping::scalar_type(s@),
            _ => NodeTypeV::Unknown,
        },
        Expression::Str(_) => NodeTypeV::Literal(xsd_string_iri()),
        Expression::Datatype(_) => NodeTypeV::IRI,
        _ => NodeTypeV::Literal(crate::model::xsd_boolean_iri()),
    }
}

/// Binding `v` to the value of `e` on each row.
pub open spec fn extend_spec(s: SolV, v: Seq<char>, e: Expression) -> SolV {
    SolV {
        names: s.names.push(v),
        rows: s.rows.map_values(|r: Seq<ValueV>| r.push(eval_spec(e, s.names, s.types, r))),
        types: s.types.push((v, expr_type(e, s.types))),
    }
}

fn term_var_exec(t: &TermPattern) -> (r: Option<&String>)
    ensures
        match r {
            Some(v) => term_var(*t) == Some(v@),
            None => term_var(*t) is None,
        },
{
    match t {
        TermPattern::Variable(v) => Some(v),
        _ => None,
    }
}

fn term_cell_exec(t: &TermPattern) -> (c: Value)
    ensures
        c@ == term_cell(*t),
{
    match t {
        TermPattern::Variable(_) => Value::Null,
        TermPattern::Iri(x) => Value::Item(Scalar::Iri(x.clone())),
        TermPattern::Literal(s) => Value::Item(s.copy()),
    }
}

fn push_var_exec(vs: &mut Vec<String>, t: &TermPattern)
    ensures
        names_view(final(vs)@) == push_var(names_view(old(vs)@), *t),
{
    match term_var_exec(t) {
        Some(v) => {
            proof {
                assert(old(vs)@.map_values(|x: String| x@) == names_view(old(vs)@));
            }
            if !crate::triplestore::contains_string(vs, v) {
                let ghost before = vs@;
                vs.push(v.clone());
                proof {
                    assert(names_view(vs@) =~= names_view(before).push(v@));
                }
            }
        },
        None => {},
    }
}

fn pattern_vars_exec(tp: &TriplePattern) -> (vs: Vec<String>)
    ensures
        names_view(vs@) == pattern_vars(*tp),
{
    let mut vs: Vec<String> = Vec::new();
    proof {
        assert(names_view(vs@) =~= Seq::<Seq<char>>::empty());
    }
    push_var_exec(&mut vs, &tp.subject);
    push_var_exec(&mut vs, &tp.predicate);
    push_var_exec(&mut vs, &tp.object);
    vs
}

fn is_var(t: &TermPattern, v: &String) -> (b: bool)
    ensures
        b == (term_var(*t) == Some(v@)),
{
    match t {
        TermPattern::Variable(x) => x.eq(v),
        _ => false,
    }
}

fn var_cell_exec(tp: &TriplePattern, v: &String, s: &Value, p: &Value, o: &Value) -> (c: Value)
    ensures
        c@ == var_cell(*tp, v@, s@, p@, o@),
{
    if is_var(&tp.subject, v) {
        s.copy()
    } else if is_var(&tp.predicate, v) {
        p.copy()
    } else {
        o.copy()
    }
}

fn slot_ok_exec(tp: &TriplePattern, t: &TermPattern, cell: &Value, s: &Value, p: &Value, o: &Value) -> (b: bool)
    ensures
        b == slot_ok(*tp, *t, cell@, s@, p@, o@),
{
    match term_var_exec(t) {
        Some(v) => var_cell_exec(tp, v, s, p, o).same(cell),
        None => term_cell_exec(t).same(cell),
    }
}

fn match_triple_exec(tp: &TriplePattern, vars: &Vec<String>, s: &Value, p: &Value, o: &Value) -> (r: Option<Vec<Value>>)
    requires
        names_view(vars@) == pattern_vars(*tp),
    ensures
        match r {
            Some(out) => match_triple(*tp, s@, p@, o@) == Some(row_view(out@)) && out@.len() == vars@.len(),
            None => match_triple(*tp, s@, p@, o@) is None,
        },
{
    if !(slot_ok_exec(tp, &tp.subject, s, s, p, o) && slot_ok_exec(tp, &tp.predicate, p, s, p, o) && slot_ok_exec(tp, &tp.object, o, s, p, o)) {
        return None;
    }
    let mut out: Vec<Value> = Vec::new();
    let mut k: usize = 0;
    while k < vars.len()
        invariant
            k <= vars.len(),
            out@.len() == k,
            names_view(vars@) == pattern_vars(*tp),
            forall|m: int| 0 <= m < k ==> (#[trigger] out@[m])@ == var_cell(*tp, vars@[m]@, s@, p@, o@),
        decreases vars.len() - k,
    {
        out.push(var_cell_exec(tp, &vars[k], s, p, o));
        k += 1;
    }
    proof {
        assert(row_view(out@) =~= pattern_vars(*tp).map_values(|v: Seq<char>| var_cell(*tp, v, s@, p@, o@)));
    }
    Some(out)
}

fn table_matches_exec(tp: &TriplePattern, vars: &Vec<String>, pred: &String, rows: &Vec<Vec<Value>>, out: &mut Vec<Vec<Value>>)
    requires
        names_view(vars@) == pattern_vars(*tp),
        forall|m: int| 0 <= m < old(out)@.len() ==> (#[trigger] old(out)@[m])@.len() == vars@.len(),
    ensures
        rows_view(final(out)@) == rows_view(old(out)@) + table_matches(*tp, pred@, rows_view(rows@)),
        forall|m: int| 0 <= m < final(out)@.len() ==> (#[trigger] final(out)@[m])@.len() == vars@.len(),
{
    let ghost rv = rows_view(rows@);
    let ghost before = rows_view(out@);
    let p = Value::Item(Scalar::Iri(pred.clone()));
    let mut i: usize = 0;
    proof {
        assert(rv.take(0) =~= Seq::<Seq<ValueV>>::empty());
        assert(before + Seq::<Seq<ValueV>>::empty() =~= before);
    }
    while i < rows.len()
        invariant
            i <= rows.len(),
            rv == rows_view(rows@),
            p@ == ValueV::Item(ScalarV::Iri(pred@)),
            names_view(vars@) == pattern_vars(*tp),
            rows_view(out@) == before + table_matches(*tp, pred@, rv.take(i as int)),
            forall|m: int| 0 <= m < out@.len() ==> (#[trigger] out@[m])@.len() == vars@.len(),
        decreases rows.len() - i,
    {
        let r = &rows[i];
        proof {
            assert(rv.take(i as int + 1).drop_last() =~= rv.take(i as int));
            assert(rv.take(i as int + 1).last() == row_view(r@));
        }
        if r.len() >= 2 {
            match match_triple_exec(tp, vars, &r[0], &p, &r[1]) {
                Some(o) => {
                    let ghost mid = rows_view(out@);
                    proof {
                        lemma_rows_view_push(out@, o);
                    }
                    out.push(o);
                    proof {
                        let tm = table_matches(*tp, pred@, rv.take(i as int));
                        assert((before + tm).push(row_view(o@)) =~= before + tm.push(row_view(o@)));
                    }
                },
                None => {},
            }
        }
        i += 1;
    }
    proof {
        assert(rv.take(i as int) =~= rv);
    }
}

pub fn table_rows_of(t: &TripleTable) -> (rows: Vec<Vec<Value>>)
    ensures
        rows_view(rows@) == table_rows(t@),
{
    match &t.storage {
        TableStorage::InMemory(bs) => concat_rows(bs),
        TableStorage::Spilled(_) => {
            let r: Vec<Vec<Value>> = Vec::new();
            proof {
                assert(rows_view(r@) =~= Seq::<Seq<ValueV>>::empty());
            }
            r
        },
    }
}

fn table_selected_exec(tp: &TriplePattern, t: &TripleTable) -> (b: bool)
    ensures
        b == table_selected(*tp, t@),
{
    match &tp.predicate {
        TermPattern::Iri(x) => t.predicate.eq(x),
        _ => true,
    }
}

pub open spec fn tables_view(ts: Seq<TripleTable>) -> Seq<TableV> {
    ts.map_values(|t: TripleTable| t@)
}

fn object_type_exec(tp: &TriplePattern, tables: &Vec<TripleTable>) -> (t: RDFNodeType)
    ensures
        t@ == object_type_of(*tp, tables_view(tables@)),
{
    let ghost tv = tables_view(tables@);
    let mut i: usize = 0;
    proof {
        assert(tv.subrange(0, tv.len() as int) =~= tv);
    }
    while i < tables.len()
        invariant
            i <= tables.len(),
            tv == tables_view(tables@),
            object_type_of(*tp, tv) == object_type_of(*tp, tv.subrange(i as int, tv.len() as int)),
        decreases tables.len() - i,
    {
        let ghost sub = tv.subrange(i as int, tv.len() as int);
        proof {
            assert(sub[0] == tables@[i as int]@);
            assert(sub.subrange(1, sub.len() as int) =~= tv.subrange(i as int + 1, tv.len() as int));
        }
        if table_selected_exec(tp, &tables[i]) {
            return tables[i].object_type.copy();
        }
        i += 1;
    }
    RDFNodeType::Unknown
}

/// The solutions of one triple pattern over the buckets (see [`pattern_spec`]).
pub fn pattern_solution(tp: &TriplePattern, tables: &Vec<TripleTable>) -> (s: SolutionMappings)
    ensures
        s@ == pattern_spec(*tp, tables_view(tables@)),
        s.wf(),
{
    let ghost tv = tables_view(tables@);
    let vars = pattern_vars_exec(tp);
    let mut rows: Vec<Vec<Value>> = Vec::new();
    let mut i: usize = 0;
    proof {
        assert(rows_view(rows@) =~= Seq::<Seq<ValueV>>::empty());
        assert(tv.take(0) =~= Seq::<TableV>::empty());
    }
    while i < tables.len()
        invariant
            i <= tables.len(),
            tv == tables_view(tables@),
            names_view(vars@) == pattern_vars(*tp),
            rows_view(rows@) == pattern_rows(*tp, tv.take(i as int)),
            forall|m: int| 0 <= m < rows@.len() ==> (#[trigger] rows@[m])@.len() == vars@.len(),
        decreases tables.len() - i,
    {
        let t = &tables[i];
        proof {
            assert(tv.take(i as int + 1).drop_last() =~= tv.take(i as int));
            assert(tv.take(i as int + 1).last() == t@);
        }
        if table_selected_exec(tp, t) {
            let trows = table_rows_of(t);
            table_matches_exec(tp, &vars, &t.predicate, &trows, &mut rows);
        }
        i += 1;
    }
    proof {
        assert(tv.take(i as int) =~= tv);
    }
    let ot = object_type_exec(tp, tables);
    let mut types: Vec<(String, RDFNodeType)> = Vec::new();
    let mut k: usize = 0;
    while k < vars.len()
        invariant
            k <= vars.len(),
            types@.len() == k,
            ot@ == object_type_of(*tp, tv),
            forall|m: int| 0 <= m < k ==> (#[trigger] types@[m]).0@ == vars@[m]@ && types@[m].1@ == var_type(*tp, vars@[m]@, tv),
        decreases vars.len() - k,
    {
        let v = &vars[k];
        let t = if is_var(&tp.subject, v) || is_var(&tp.predicate, v) { RDFNodeType::IRI } else { ot.copy() };
        types.push((v.clone(), t));
        k += 1;
    }
    let ghost nv = names_view(vars@);
    proof {
        assert(types_view(types@) =~= nv.map_values(|v: Seq<char>| (v, var_type(*tp, v, tv))));
        lemma_rows_view_width(rows@, vars@.len());
    }
    SolutionMappings { mappings: Batch { names: vars, rows }, rdf_node_types: types }
}

fn unit_solution() -> (s: SolutionMappings)
    ensures
        s@ == unit_sol(),
        s.wf(),
{
    let mut rows: Vec<Vec<Value>> = Vec::new();
    rows.push(Vec::new());
    let s = SolutionMappings { mappings: Batch { names: Vec::new(), rows }, rdf_node_types: Vec::new() };
    proof {
        assert(row_view(s.mappings.rows@[0]@) =~= Seq::<ValueV>::empty());
        assert(rows_view(s.mappings.rows@) =~= seq![Seq::<ValueV>::empty()]);
        lemma_rows_view_width(s.mappings.rows@, 0);
        assert(names_view(s.mappings.names@) =~= Seq::<Seq<char>>::empty());
        assert(types_view(s.rdf_node_types@) =~= Seq::<(Seq<char>, NodeTypeV)>::empty());
    }
    s
}

/// A basic graph pattern over the buckets (see [`bgp_spec`]).
pub fn bgp_solution(ps: &Vec<TriplePattern>, tables: &Vec<TripleTable>) -> (s: SolutionMappings)
    ensures
        s@ == bgp_spec(ps@, tables_view(tables@)),
        s.wf(),
{
    let mut acc = unit_solution();
    let mut i: usize = 0;
    proof {
        assert(ps@.take(0) =~= Seq::<TriplePattern>::empty());
    }
    while i < ps.len()
        invariant
            i <= ps.len(),
            acc@ == bgp_spec(ps@.take(i as int), tables_view(tables@)),
            acc.wf(),
        decreases ps.len() - i,
    {
        let p = pattern_solution(&ps[i], tables);
        proof {
            assert(ps@.take(i as int + 1).drop_last() =~= ps@.take(i as int));
            assert(ps@.take(i as int + 1).last() == ps@[i as int]);
        }
        acc = join_solutions(&acc, &p, false, &None);
        i += 1;
    }
    proof {
        assert(ps@.take(i as int) =~= ps@);
    }
    acc
}

fn distinct_exec(s: SolutionMappings) -> (o: SolutionMappings)
    requires
        s.wf(),
    ensures
        o@ == (SolV { rows: unique_first(s@.rows), ..s@ }),
        o.wf(),
{
    let SolutionMappings { mappings, rdf_node_types } = s;
    let Batch { names, rows } = mappings;
    let ghost n = names@.len();
    proof {
        lemma_rows_view_width(rows@, n);
    }
    let ghost inp = rows@;
    let rows = unique_rows(rows);
    proof {
        assert forall|i: int| 0 <= i < rows@.len() implies #[trigger] rows@[i]@.len() == n by {
            let m = choose|m: int| 0 <= m < inp.len() && #[trigger] rows@[i]@.len() == inp[m]@.len();
            assert(inp[m]@.len() == n);
        }
        lemma_rows_view_width(rows@, n);
    }
    SolutionMappings { mappings: Batch { names, rows }, rdf_node_types }
}

fn slice_exec(s: SolutionMappings, offset: usize, limit: Option<usize>) -> (o: SolutionMappings)
    requires
        s.wf(),
    ensures
        o@ == (SolV { rows: slice_rows(s@.rows, offset as nat, limit), ..s@ }),
        o.wf(),
{
    let SolutionMappings { mappings, rdf_node_types } = s;
    let Batch { names, rows } = mappings;
    let ghost n = names@.len();
    let ghost rv = rows_view(rows@);
    proof {
        lemma_rows_view_width(rows@, n);
    }
    let start = if offset <= rows.len() { offset } else { rows.len() };
    let end = match limit {
        Some(l) => if l <= rows.len() - start { start + l } else { rows.len() },
        None => rows.len(),
    };
    let mut out: Vec<Vec<Value>> = Vec::new();
    let mut i: usize = start;
    while i < end
        invariant
            start <= i <= end,
            end <= rows.len(),
            rv == rows_view(rows@),
            out@.len() == i - start,
            forall|i: int| 0 <= i < rows@.len() ==> #[trigger] rows@[i]@.len() == n,
            forall|m: int| 0 <= m < out@.len() ==> row_view((#[trigger] out@[m])@) == rv[start + m],
            forall|m: int| 0 <= m < out@.len() ==> (#[trigger] out@[m])@.len() == n,
        decreases end - i,
    {
        out.push(copy_row(&rows[i]));
        i += 1;
    }
    proof {
        let rest = if offset <= rv.len() { rv.skip(offset as int) } else { Seq::<Seq<ValueV>>::empty() };
        assert(rest =~= rv.skip(start as int));
        let expect = slice_rows(rv, offset as nat, limit);
        assert(rows_view(out@) =~= expect);
        lemma_rows_view_width(out@, n);
    }
    SolutionMappings { mappings: Batch { names, rows: out }, rdf_node_types }
}

/// Evaluates a graph pattern over the buckets (see [`eval_pattern`]).
pub fn eval_graph_pattern(gp: &GraphPattern, tables: &Vec<TripleTable>, ctx: &Context) -> (r: Result<SolutionMappings, SparqlError>)
    ensures
        match r {
            Ok(s) => eval_pattern(*gp, tables_view(tables@), ctx.path@) == Ok::<SolV, SparqlErrorV>(s@) && s.wf(),
            Err(e) => eval_pattern(*gp, tables_view(tables@), ctx.path@) == Err::<SolV, SparqlErrorV>(e@),
        },
    decreases gp,
{
    match gp {
        GraphPattern::Bgp(ps) => Ok(bgp_solution(ps, tables)),
        GraphPattern::Join(a, b) => {
            let l = eval_graph_pattern(a, tables, &ctx.extension_with(PathEntry::JoinLeftSide))?;
            let r = eval_graph_pattern(b, tables, &ctx.extension_with(PathEntry::JoinRightSide))?;
            Ok(join_solutions(&l, &r, false, &None))
        },
        GraphPattern::LeftJoin(a, b, cond) => {
            let l = eval_graph_pattern(a, tables, &ctx.extension_with(PathEntry::LeftJoinLeftSide))?;
            let r = eval_graph_pattern(b, tables, &ctx.extension_with(PathEntry::LeftJoinRightSide))?;
            Ok(join_solutions(&l, &r, true, cond))
        },
        GraphPattern::Union(a, b) => {
            let l = eval_graph_pattern(a, tables, &ctx.extension_with(PathEntry::UnionLeftSide))?;
            let r = eval_graph_pattern(b, tables, &ctx.extension_with(PathEntry::UnionRightSide))?;
            union_exec(&l, &r, ctx)
        },
        GraphPattern::Filter(e, a) => {
            let s = eval_graph_pattern(a, tables, &ctx.extension_with(PathEntry::FilterInner))?;
            Ok(filter_exec(e, s))
        },
        GraphPattern::Project(a, vars) => {
            let s = eval_graph_pattern(a, tables, &ctx.extension_with(PathEntry::ProjectInner))?;
            project_exec(&s, vars, ctx)
        },
        GraphPattern::Distinct(a) => {
            let s = eval_graph_pattern(a, tables, &ctx.extension_with(PathEntry::DistinctInner))?;
            Ok(distinct_exec(s))
        },
        GraphPattern::Slice(a, offset, limit) => {
            let s = eval_graph_pattern(a, tables, &ctx.extension_with(PathEntry::SliceInner))?;
            Ok(slice_exec(s, *offset, *limit))
        },
        GraphPattern::Minus(a, b) => {
            let l = eval_graph_pattern(a, tables, &ctx.extension_with(PathEntry::MinusLeftSide))?;
            let r = eval_graph_pattern(b, tables, &ctx.extension_with(PathEntry::MinusRightSide))?;
            Ok(minus_exec(l, &r))
        },
        GraphPattern::Extend(a, v, e) => {
            let s = eval_graph_pattern(a, tables, &ctx.extension_with(PathEntry::ExtendInner))?;
            Ok(extend_exec(s, v, e))
        },
        GraphPattern::OrderBy(a, os) => {
            let inner = ctx.extension_with(PathEntry::OrderByInner);
            let s = eval_graph_pattern(a, tables, &inner)?;
            Ok(order_exec(s, os, &inner))
        },
        GraphPattern::Group(a, keys, aggs) => {
            let s = eval_graph_pattern(a, tables, &ctx.extension_with(PathEntry::GroupInner))?;
            group_exec(&s, keys, aggs, ctx)
        },
    }
}

fn minus_exec(l: SolutionMappings, r: &SolutionMappings) -> (o: SolutionMappings)
    requires
        l.wf(),
        r.wf(),
    ensures
        o@ == minus_spec(l@, r@),
        o.wf(),
{
    let ghost ln = l@.names;
    let ghost rn = r@.names;
    let extra = extra_columns(&l.mappings.names, &r.mappings.names);
    if extra.len() == r.mappings.names.len() {
        return l;
    }
    let lidx = shared_positions(&l.mappings.names, &r.mappings.names);
    proof {
        lemma_rows_view_width(l.mappings.rows@, ln.len());
        lemma_rows_view_width(r.mappings.rows@, rn.len());
    }
    let lrows = &l.mappings.rows;
    let rrows = &r.mappings.rows;
    let ghost lv = rows_view(lrows@);
    let ghost rv = rows_view(rrows@);
    let mut out: Vec<Vec<Value>> = Vec::new();
    let mut i: usize = 0;
    while i < lrows.len()
        invariant
            i <= lrows.len(),
            lv == rows_view(lrows@),
            rv == rows_view(rrows@),
            ln == l@.names,
            rn == r@.names,
            lidx@.len() == rn.len(),
            forall|j: int| 0 <= j < rn.len() ==> match #[trigger] lidx@[j] {
                Some(i) => i < ln.len() && i as int == index_of(ln, rn[j]),
                None => index_of(ln, rn[j]) == -1,
            },
            forall|i: int| 0 <= i < lrows@.len() ==> #[trigger] lrows@[i]@.len() == ln.len(),
            forall|i: int| 0 <= i < rrows@.len() ==> #[trigger] rrows@[i]@.len() == rn.len(),
            rows_view(out@) == minus_rows(ln, rn, lv.take(i as int), rv),
            forall|m: int| 0 <= m < out@.len() ==> (#[trigger] out@[m])@.len() == ln.len(),
        decreases lrows.len() - i,
    {
        let lr = &lrows[i];
        let mut found = false;
        let mut j: usize = 0;
        proof {
            assert(rv.take(0) =~= Seq::<Seq<ValueV>>::empty());
        }
        while j < rrows.len()
            invariant
                j <= rrows.len(),
                i < lrows.len(),
                lr == lrows@[i as int],
                rv == rows_view(rrows@),
                ln == l@.names,
                rn == r@.names,
                lidx@.len() == rn.len(),
                forall|j: int| 0 <= j < rn.len() ==> match #[trigger] lidx@[j] {
                    Some(i) => i < ln.len() && i as int == index_of(ln, rn[j]),
                    None => index_of(ln, rn[j]) == -1,
                },
                forall|i: int| 0 <= i < lrows@.len() ==> #[trigger] lrows@[i]@.len() == ln.len(),
                forall|i: int| 0 <= i < rrows@.len() ==> #[trigger] rrows@[i]@.len() == rn.len(),
                found == (matches_of(ln, rn, row_view(lr@), rv.take(j as int), None, seq![]).len() > 0),
            decreases rrows.len() - j,
        {
            proof {
                assert(rv.take(j as int + 1).drop_last() =~= rv.take(j as int));
                assert(rv.take(j as int + 1).last() == row_view(rrows@[j as int]@));
            }
            if compatible_exec(&lidx, lr, &rrows[j], Ghost(ln), Ghost(rn)) {
                found = true;
            }
            j += 1;
        }
        proof {
            assert(rv.take(j as int) =~= rv);
            assert(lv.take(i as int + 1).drop_last() =~= lv.take(i as int));
            assert(lv.take(i as int + 1).last() == row_view(lr@));
        }
        if !found {
            let c = copy_row(lr);
            proof {
                lemma_rows_view_push(out@, c);
            }
            out.push(c);
        }
        i += 1;
    }
    proof {
        assert(lv.take(i as int) =~= lv);
        lemma_rows_view_width(out@, ln.len());
    }
    let SolutionMappings { mappings, rdf_node_types } = l;
    SolutionMappings { mappings: Batch { names: mappings.names, rows: out }, rdf_node_types }
}

fn expr_type_exec(e: &Expression, types: &Vec<(String, RDFNodeType)>) -> (t: RDFNodeType)
    ensures
        t@ == expr_type(*e, types_view(types@)),
{
    match e {
        Expression::Variable(v) => {
            proof {
                assert(type_keys(types_view(types@)) =~= types@.map_values(|e: (String, RDFNodeType)| e.0@));
            }
            match find_key(types, v) {
                Some(i) => types[i].1.copy(),
                None => RDFNodeType::Unknown,
            }
        },
        Expression::Literal(s) => crate::mapping::scalar_type_exec(s),
        Expression::Add(..) | Expression::Subtract(..) | Expression::Multiply(..) => RDFNodeType::Literal(crate::model::xsd_long()),
        Expression::If(_, a, _) => match &**a {
            Expression::Variable(v) => {
                proof {
                    assert(type_keys(types_view(types@)) =~= types@.map_values(|e: (String, RDFNodeType)| e.0@));
                }
                match find_key(types, v) {
                    Some(i) => types[i].1.copy(),
                    None => RDFNodeType::Unknown,
                }
            },
            Expression::Literal(s) => crate::mapping::scalar_type_exec(s),
            _ => RDFNodeType::Unknown,
        },
        Expression::Coalesce(a, _) => match &**a {
            Expression::Variable(v) => {
                proof {
                    assert(type_keys(types_view(types@)) =~= types@.map_values(|e: (String, RDFNodeType)| e.0@));
                }
                match find_key(types, v) {
                    Some(i) => types[i].1.copy(),
                    None => RDFNodeType::Unknown,
                }
            },
            Expression::Literal(s) => crate::mapping::scalar_type_exec(s),
            _ => RDFNodeType::Unknown,
        },
        Expression::Str(_) => RDFNodeType::Literal(crate::model::xsd_string()),
        Expression::Datatype(_) => RDFNodeType::IRI,
        _ => RDFNodeType::Literal(crate::model::xsd_boolean()),
    }
}

fn extend_exec(s: SolutionMappings, v: &String, e: &Expression) -> (o: SolutionMappings)
    requires
        s.wf(),
    ensures
        o@ == extend_spec(s@, v@, *e),
        o.wf(),
{
    let SolutionMappings { mappings, rdf_node_types } = s;
    let Batch { names, rows } = mappings;
    let ghost nv = names_view(names@);
    proof {
        lemma_rows_view_width(rows@, nv.len());
    }
    let mut out: Vec<Vec<Value>> = Vec::new();
    let mut i: usize = 0;
    while i < rows.len()
        invariant
            i <= rows.len(),
            out@.len() == i,
            nv == names_view(names@),
            forall|i: int| 0 <= i < rows@.len() ==> #[trigger] rows@[i]@.len() == nv.len(),
            forall|m: int| 0 <= m < i ==> row_view((#[trigger] out@[m])@) == row_view(rows@[m]@).push(eval_spec(*e, nv, types_view(rdf_node_types@), row_view(rows@[m]@))),
            forall|m: int| 0 <= m < i ==> (#[trigger] out@[m])@.len() == nv.len() + 1,
        decreases rows.len() - i,
    {
        let mut r = copy_row(&rows[i]);
        let x = eval_expr(e, &names, &rdf_node_types, &rows[i]);
        let ghost before = r@;
        r.push(x);
        proof {
            assert(row_view(r@) =~= row_view(before).push(x@));
        }
        out.push(r);
        i += 1;
    }
    let t = expr_type_exec(e, &rdf_node_types);
    let mut types = rdf_node_types;
    let ghost tv = types_view(types@);
    types.push((v.clone(), t));
    let mut names = names;
    let ghost nn = names@;
    names.push(v.clone());
    proof {
        assert(types_view(types@) =~= tv.push((v@, t@)));
        assert(names_view(names@) =~= names_view(nn).push(v@));
        assert(rows_view(out@) =~= rows_view(rows@).map_values(|r: Seq<ValueV>| r.push(eval_spec(*e, nv, tv, r))));
        lemma_rows_view_width(out@, nv.len() + 1);
    }
    SolutionMappings { mappings: Batch { names, rows: out }, rdf_node_types: types }
}

/// Over a store without buckets a basic graph pattern of at least one
/// triple pattern has no solution, and neither has its projection.
pub proof fn lemma_empty_store_has_no_solutions(gp: GraphPattern, ctx: Seq<PathEntry>)
    requires
        gp matches GraphPattern::Project(inner, _) && (*inner matches GraphPattern::Bgp(ps) && ps@.len() >= 1),
    ensures
        eval_pattern(gp, seq![], ctx) matches Ok(s) ==> s.rows.len() == 0,
{
    if let GraphPattern::Project(inner, vars) = gp {
        if let GraphPattern::Bgp(ps) = *inner {
            let ts = Seq::<TableV>::empty();
            let p = ps@;
            let last = pattern_spec(p.last(), ts);
            assert(pattern_rows(p.last(), ts) =~= Seq::<Seq<ValueV>>::empty());
            let prev = bgp_spec(p.drop_last(), ts);
            lemma_join_with_empty(prev.names, last.names, prev.rows, last.rows, merge_types(prev.types, last.types));
            let b = bgp_spec(p, ts);
            assert(b.rows.len() == 0);
            assert(eval_pattern(*inner, ts, ctx.push(PathEntry::ProjectInner)) == Ok::<SolV, SparqlErrorV>(b));
            let pr = project_spec(b, names_view(vars@), ctx);
            if pr is Ok {
                assert(!exists|k: int| 0 <= k < names_view(vars@).len() && index_of(b.names, #[trigger] names_view(vars@)[k]) < 0);
                assert(pr->Ok_0.rows.len() == b.rows.len());
            }
        }
    }
}

proof fn lemma_join_with_empty(ln: Seq<Seq<char>>, rn: Seq<Seq<char>>, lrows: Seq<Seq<ValueV>>, rrows: Seq<Seq<ValueV>>, jt: Seq<(Seq<char>, NodeTypeV)>)
    requires
        rrows.len() == 0,
    ensures
        join_rows(ln, rn, lrows, rrows, false, None, jt).len() == 0,
    decreases lrows.len(),
{
    if lrows.len() > 0 {
        lemma_join_with_empty(ln, rn, lrows.drop_last(), rrows, jt);
        assert(matches_of(ln, rn, lrows.last(), rrows, None, jt).len() == 0);
    }
}

/// A parsed query.
pub enum Query {
    Select(GraphPattern),
    Construct(Vec<TriplePattern>, GraphPattern),
    Ask(GraphPattern),
    Describe(GraphPattern),
}

/// The answer to a query: a solution batch, or for each template triple
/// its batch of `subject, object, verb` rows and the objects' type.
pub enum QueryResult {
    Select(Batch),
    Construct(Vec<(Batch, RDFNodeType)>),
}

pub enum QueryResultV {
    Select(BatchV),
    Construct(Seq<(BatchV, NodeTypeV)>),
}

impl View for QueryResult {
    type V = QueryResultV;

    open spec fn view(&self) -> QueryResultV {
        match self {
            QueryResult::Select(b) => QueryResultV::Select(b@),
            QueryResult::Construct(v) => QueryResultV::Construct(v@.map_values(|e: (Batch, RDFNodeType)| (e.0@, e.1@))),
        }
    }
}

pub open spec fn triple_has_variable(t: TriplePattern) -> bool {
    term_var(t.subject) is Some || term_var(t.predicate) is Some || term_var(t.object) is Some
}

/// The column a template term gives: a solution column, or a constant
/// repeated `len` times.
pub open spec fn term_column(sol: SolV, t: TermPattern, len: nat, ctx: Seq<PathEntry>) -> Result<Seq<ValueV>, SparqlErrorV> {
    match term_var(t) {
        Some(v) => {
            let i = index_of(sol.names, v);
            if i >= 0 {
                Ok(sol.rows.map_values(|r: Seq<ValueV>| r[i]))
            } else {
                Err(SparqlErrorV::VariableNotFound(v, ctx))
            }
        },
        None => Ok(Seq::new(len, |k: int| term_cell(t))),
    }
}

/// The type of the objects a template term gives.
pub open spec fn term_type(sol: SolV, t: TermPattern, ctx: Seq<PathEntry>) -> Result<NodeTypeV, SparqlErrorV> {
    match t {
        TermPattern::Variable(v) => {
            let i = index_of(type_keys(sol.types), v@);
            if i >= 0 { Ok(sol.types[i].1) } else { Err(SparqlErrorV::VariableNotFound(v@, ctx)) }
        },
        TermPattern::Iri(_) => Ok(NodeTypeV::IRI),
        TermPattern::Literal(s) => Ok(crate::mapping::scalar_type(s@)),
    }
}

pub open spec fn triple_names() -> Seq<Seq<char>> {
    seq!["subject"@, "object"@, "verb"@]
}

/// The triples a template triple makes of the solutions.
pub open spec fn construct_triple_spec(sol: SolV, t: TriplePattern, ctx: Seq<PathEntry>) -> Result<(BatchV, NodeTypeV), SparqlErrorV> {
    let len: nat = if triple_has_variable(t) { sol.rows.len() } else { 1 };
    match (term_column(sol, t.subject, len, ctx), term_column(sol, t.predicate, len, ctx), term_column(sol, t.object, len, ctx), term_type(sol, t.object, ctx)) {
        (Err(e), _, _, _) => Err(e),
        (Ok(_), Err(e), _, _) => Err(e),
        (Ok(_), Ok(_), Err(e), _) => Err(e),
        (Ok(_), Ok(_), Ok(_), Err(e)) => Err(e),
        (Ok(s), Ok(p), Ok(o), Ok(ot)) => Ok((BatchV { names: triple_names(), rows: Seq::new(len, |k: int| seq![s[k], o[k], p[k]]) }, ot)),
    }
}

/// The triples of each template triple in turn, stopping at the first error.
pub open spec fn construct_spec(sol: SolV, ts: Seq<TriplePattern>, ctx: Seq<PathEntry>) -> Result<Seq<(BatchV, NodeTypeV)>, SparqlErrorV>
    decreases ts.len(),
{
    if ts.len() == 0 {
        Ok(seq![])
    } else {
        match construct_spec(sol, ts.drop_last(), ctx) {
            Err(e) => Err(e),
            Ok(prev) => match construct_triple_spec(sol, ts.last(), ctx) {
                Err(e) => Err(e),
                Ok(x) => Ok(prev.push(x)),
            },
        }
    }
}

/// The answer to a query over the buckets `ts`.
pub open spec fn query_spec(q: Query, ts: Seq<TableV>) -> Result<QueryResultV, SparqlErrorV> {
    match q {
        Query::Select(gp) => match eval_pattern(gp, ts, seq![]) {
            Err(e) => Err(e),
            Ok(s) => Ok(QueryResultV::Select(BatchV { names: s.names, rows: s.rows })),
        },
        Query::Construct(tmpl, gp) => match eval_pattern(gp, ts, seq![]) {
            Err(e) => Err(e),
            Ok(s) => match construct_spec(s, tmpl@, seq![]) {
                Err(e) => Err(e),
                Ok(v) => Ok(QueryResultV::Construct(v)),
            },
        },
        _ => Err(SparqlErrorV::QueryTypeNotSupported),
    }
}

fn term_column_exec(sol: &SolutionMappings, t: &TermPattern, len: usize, ctx: &Context) -> (r: Result<Vec<Value>, SparqlError>)
    requires
        sol.wf(),
        term_var(*t) is Some ==> len == sol@.rows.len(),
    ensures
        match r {
            Ok(c) => term_column(sol@, *t, len as nat, ctx.path@) == Ok::<Seq<ValueV>, SparqlErrorV>(row_view(c@)) && c@.len() == len,
            Err(e) => term_column(sol@, *t, len as nat, ctx.path@) == Err::<Seq<ValueV>, SparqlErrorV>(e@),
        },
{
    let mut out: Vec<Value> = Vec::new();
    match term_var_exec(t) {
        Some(v) => match position(&sol.mappings.names, v) {
            Some(i) => {
                proof {
                    lemma_rows_view_width(sol.mappings.rows@, sol@.names.len());
                }
                let mut k: usize = 0;
                while k < sol.mappings.rows.len()
                    invariant
                        k <= sol.mappings.rows.len(),
                        out@.len() == k,
                        i < sol@.names.len(),
                        forall|j: int| 0 <= j < sol.mappings.rows@.len() ==> #[trigger] sol.mappings.rows@[j]@.len() == sol@.names.len(),
                        forall|m: int| 0 <= m < k ==> (#[trigger] out@[m])@ == sol@.rows[m][i as int],
                    decreases sol.mappings.rows.len() - k,
                {
                    proof {
                        assert(sol@.rows[k as int] == row_view(sol.mappings.rows@[k as int]@));
                    }
                    out.push(sol.mappings.rows[k][i].copy());
                    k += 1;
                }
                proof {
                    assert(row_view(out@) =~= sol@.rows.map_values(|r: Seq<ValueV>| r[i as int]));
                }
                Ok(out)
            },
            None => Err(SparqlError::VariableNotFound(v.clone(), copy_path(&ctx.path))),
        },
        None => {
            let mut k: usize = 0;
            while k < len
                invariant
                    k <= len,
                    out@.len() == k,
                    forall|m: int| 0 <= m < k ==> (#[trigger] out@[m])@ == term_cell(*t),
                decreases len - k,
            {
                out.push(term_cell_exec(t));
                k += 1;
            }
            proof {
                assert(row_view(out@) =~= Seq::new(len as nat, |k: int| term_cell(*t)));
            }
            Ok(out)
        },
    }
}

fn term_type_exec(sol: &SolutionMappings, t: &TermPattern, ctx: &Context) -> (r: Result<RDFNodeType, SparqlError>)
    ensures
        match r {
            Ok(x) => term_type(sol@, *t, ctx.path@) == Ok::<NodeTypeV, SparqlErrorV>(x@),
            Err(e) => term_type(sol@, *t, ctx.path@) == Err::<NodeTypeV, SparqlErrorV>(e@),
        },
{
    match t {
        TermPattern::Variable(v) => {
            proof {
                assert(type_keys(sol@.types) =~= sol.rdf_node_types@.map_values(|e: (String, RDFNodeType)| e.0@));
            }
            match find_key(&sol.rdf_node_types, v) {
                Some(i) => Ok(sol.rdf_node_types[i].1.copy()),
                None => Err(SparqlError::VariableNotFound(v.clone(), copy_path(&ctx.path))),
            }
        },
        TermPattern::Iri(_) => Ok(RDFNodeType::IRI),
        TermPattern::Literal(s) => Ok(crate::mapping::scalar_type_exec(s)),
    }
}

fn has_variable_exec(t: &TriplePattern) -> (b: bool)
    ensures
        b == triple_has_variable(*t),
{
    term_var_exec(&t.subject).is_some() || term_var_exec(&t.predicate).is_some() || term_var_exec(&t.object).is_some()
}

fn triple_names_exec() -> (r: Vec<String>)
    ensures
        names_view(r@) == triple_names(),
{
    let mut r: Vec<String> = Vec::new();
    r.push(String::from_str("subject"));
    r.push(String::from_str("object"));
    r.push(String::from_str("verb"));
    proof {
        assert(names_view(r@) =~= triple_names());
    }
    r
}

/// The triples one template triple makes of the solutions (see [`construct_triple_spec`]).
pub fn triple_to_df(sol: &SolutionMappings, t: &TriplePattern, ctx: &Context) -> (r: Result<(Batch, RDFNodeType), SparqlError>)
    requires
        sol.wf(),
    ensures
        match r {
            Ok((b, ot)) => construct_triple_spec(sol@, *t, ctx.path@) == Ok::<(BatchV, NodeTypeV), SparqlErrorV>((b@, ot@))
                && forall|i: int| 0 <= i < b.rows@.len() ==> #[trigger] b.rows@[i]@.len() == 3,
            Err(e) => construct_triple_spec(sol@, *t, ctx.path@) == Err::<(BatchV, NodeTypeV), SparqlErrorV>(e@),
        },
{
    let len = if has_variable_exec(t) { sol.mappings.rows.len() } else { 1 };
    let s = term_column_exec(sol, &t.subject, len, ctx)?;
    let p = term_column_exec(sol, &t.predicate, len, ctx)?;
    let o = term_column_exec(sol, &t.object, len, ctx)?;
    let ot = term_type_exec(sol, &t.object, ctx)?;
    let mut rows: Vec<Vec<Value>> = Vec::new();
    let mut k: usize = 0;
    while k < len
        invariant
            k <= len,
            s@.len() == len,
            p@.len() == len,
            o@.len() == len,
            rows@.len() == k,
            forall|m: int| 0 <= m < k ==> row_view((#[trigger] rows@[m])@) == seq![s@[m]@, o@[m]@, p@[m]@],
            forall|m: int| 0 <= m < k ==> (#[trigger] rows@[m])@.len() == 3,
        decreases len - k,
    {
        let mut r: Vec<Value> = Vec::new();
        r.push(s[k].copy());
        r.push(o[k].copy());
        r.push(p[k].copy());
        proof {
            assert(row_view(r@) =~= seq![s@[k as int]@, o@[k as int]@, p@[k as int]@]);
        }
        rows.push(r);
        k += 1;
    }
    let b = Batch { names: triple_names_exec(), rows };
    proof {
        let sv = row_view(s@);
        let pv = row_view(p@);
        let ov = row_view(o@);
        assert(rows_view(b.rows@) =~= Seq::new(len as nat, |k: int| seq![sv[k], ov[k], pv[k]]));
    }
    Ok((b, ot))
}

fn construct_all(sol: &SolutionMappings, tmpl: &Vec<TriplePattern>, ctx: &Context) -> (r: Result<Vec<(Batch, RDFNodeType)>, SparqlError>)
    requires
        sol.wf(),
    ensures
        match r {
            Ok(v) => construct_spec(sol@, tmpl@, ctx.path@) == Ok::<Seq<(BatchV, NodeTypeV)>, SparqlErrorV>(v@.map_values(|e: (Batch, RDFNodeType)| (e.0@, e.1@)))
                && forall|j: int, i: int| 0 <= j < v@.len() && 0 <= i < v@[j].0.rows@.len() ==> #[trigger] v@[j].0.rows@[i]@.len() == 3,
            Err(e) => construct_spec(sol@, tmpl@, ctx.path@) == Err::<Seq<(BatchV, NodeTypeV)>, SparqlErrorV>(e@),
        },
{
    let mut out: Vec<(Batch, RDFNodeType)> = Vec::new();
    let mut i: usize = 0;
    proof {
        assert(tmpl@.take(0) =~= Seq::<TriplePattern>::empty());
        assert(out@.map_values(|e: (Batch, RDFNodeType)| (e.0@, e.1@)) =~= Seq::<(BatchV, NodeTypeV)>::empty());
    }
    while i < tmpl.len()
        invariant
            i <= tmpl.len(),
            sol.wf(),
            construct_spec(sol@, tmpl@.take(i as int), ctx.path@) == Ok::<Seq<(BatchV, NodeTypeV)>, SparqlErrorV>(out@.map_values(|e: (Batch, RDFNodeType)| (e.0@, e.1@))),
            forall|j: int, i: int| 0 <= j < out@.len() && 0 <= i < out@[j].0.rows@.len() ==> #[trigger] out@[j].0.rows@[i]@.len() == 3,
        decreases tmpl.len() - i,
    {
        proof {
            assert(tmpl@.take(i as int + 1).drop_last() =~= tmpl@.take(i as int));
            assert(tmpl@.take(i as int + 1).last() == tmpl@[i as int]);
        }
        match triple_to_df(sol, &tmpl[i], ctx) {
            Ok(x) => {
                let ghost before = out@;
                out.push(x);
                proof {
                    assert(out@.map_values(|e: (Batch, RDFNodeType)| (e.0@, e.1@)) =~= before.map_values(|e: (Batch, RDFNodeType)| (e.0@, e.1@)).push((x.0@, x.1@)));
                }
            },
            Err(e) => {
                proof {
                    lemma_construct_err_sticks(sol@, tmpl@, i as int + 1, tmpl@.len() as int, ctx.path@);
                    assert(tmpl@.take(tmpl@.len() as int) =~= tmpl@);
                }
                return Err(e);
            },
        }
        i += 1;
    }
    proof {
        assert(tmpl@.take(i as int) =~= tmpl@);
    }
    Ok(out)
}

proof fn lemma_construct_err_sticks(sol: SolV, ts: Seq<TriplePattern>, m: int, n: int, ctx: Seq<PathEntry>)
    requires
        1 <= m <= n <= ts.len(),
        construct_spec(sol, ts.take(m), ctx) is Err,
    ensures
        construct_spec(sol, ts.take(n), ctx) == construct_spec(sol, ts.take(m), ctx),
    decreases n - m,
{
    if m < n {
        lemma_construct_err_sticks(sol, ts, m, n - 1, ctx);
        assert(ts.take(n).drop_last() =~= ts.take(n - 1));
    }
}

/// Answers a query over the buckets (see [`query_spec`]).
pub fn query_parsed(q: &Query, tables: &Vec<TripleTable>) -> (r: Result<QueryResult, SparqlError>)
    ensures
        r matches Ok(QueryResult::Construct(v)) ==> forall|j: int, i: int| 0 <= j < v@.len() && 0 <= i < v@[j].0.rows@.len()
            ==> #[trigger] v@[j].0.rows@[i]@.len() == 3,
        match r {
            Ok(x) => query_spec(*q, tables_view(tables@)) == Ok::<QueryResultV, SparqlErrorV>(x@),
            Err(e) => query_spec(*q, tables_view(tables@)) == Err::<QueryResultV, SparqlErrorV>(e@),
        },
{
    let ctx = Context::new();
    proof {
        assert(ctx.path@ =~= Seq::<PathEntry>::empty());
    }
    match q {
        Query::Select(gp) => {
            let s = eval_graph_pattern(gp, tables, &ctx)?;
            Ok(QueryResult::Select(s.mappings))
        },
        Query::Construct(tmpl, gp) => {
            let s = eval_graph_pattern(gp, tables, &ctx)?;
            let v = construct_all(&s, tmpl, &ctx)?;
            Ok(QueryResult::Construct(v))
        },
        _ => Err(SparqlError::QueryTypeNotSupported),
    }
}

/// The leaf emissions that a CONSTRUCT answer adds to the store.
pub open spec fn construct_adds(v: Seq<(BatchV, NodeTypeV)>) -> Seq<TriplesToAddV> {
    v.map_values(|e: (BatchV, NodeTypeV)| TriplesToAddV {
        rows: e.0.rows,
        object_type: e.1,
        language_tag: None,
        static_verb_column: None,
        has_unique_subset: false,
    })
}

/// The store `new` is `old` after absorbing the answer to the CONSTRUCT
/// query `q` under some call id; `pending` are the triples left to spill.
pub open spec fn construct_absorbed(q: Query, old: StoreV, new: StoreV, uuid: Seq<char>, pending: Seq<TripleDFV>) -> bool {
    match query_spec(q, old.tables) {
        Ok(QueryResultV::Construct(v)) => absorbed(old, new, construct_adds(v), uuid, pending),
        _ => false,
    }
}

impl Triplestore {
    /// Deduplicates the store if needed, then answers the query.
    pub fn query(&mut self, q: &Query) -> (r: Result<QueryResult, SparqlError>)
        requires
            old(self)@.wf(),
        ensures
            final(self)@.wf(),
            final(self)@.caching_folder == old(self)@.caching_folder,
            final(self)@.tables == old(self)@.tables.map_values(|t: TableV| dedup_table(t)),
            match r {
                Ok(x) => query_spec(*q, final(self)@.tables) == Ok::<QueryResultV, SparqlErrorV>(x@),
                Err(e) => query_spec(*q, final(self)@.tables) == Err::<QueryResultV, SparqlErrorV>(e@),
            },
    {
        if !self.is_deduplicated() {
            self.deduplicate();
        } else {
            proof {
                let ts = self@.tables;
                assert forall|i: int| 0 <= i < ts.len() implies #[trigger] dedup_table(ts[i]) == ts[i] by {
                    assert(ts[i].unique);
                }
                assert(ts.map_values(|t: TableV| dedup_table(t)) =~= ts);
            }
        }
        let tables = self.tables();
        query_parsed(q, tables)
    }

    /// Answers a CONSTRUCT query and adds the constructed triples to the
    /// store under a fresh call id; other queries are refused. When the
    /// store spills, the prepared triples are returned to be written.
    pub fn construct_update(&mut self, q: &Query) -> (r: Result<MappingReport, SparqlError>)
        requires
            old(self)@.wf(),
        ensures
            !(q is Construct) ==> r == Err::<MappingReport, SparqlError>(SparqlError::QueryTypeNotSupported) && final(self)@ == old(self)@,
            r is Err && q is Construct ==> query_spec(*q, old(self)@.tables) == Err::<QueryResultV, SparqlErrorV>(r->Err_0@)
                && final(self)@ == old(self)@,
            r is Ok ==> q is Construct,
            r matches Ok(rep) ==> construct_absorbed(*q, old(self)@, final(self)@, rep.call_uuid@, tdfs_view(rep.pending@)),
    {
        if !(match q {
            Query::Construct(..) => true,
            _ => false,
        }) {
            return Err(SparqlError::QueryTypeNotSupported);
        }
        let tables = self.tables();
        proof {
            assert(tables_view(tables@) == old(self)@.tables);
        }
        let res = query_parsed(q, tables);
        let ghost res_v = match &res {
            Ok(x) => Ok::<QueryResultV, SparqlErrorV>(x@),
            Err(e) => Err::<QueryResultV, SparqlErrorV>(e@),
        };
        proof {
            assert(query_spec(*q, old(self)@.tables) == res_v);
        }
        let v = match res {
            Ok(QueryResult::Construct(v)) => v,
            Ok(QueryResult::Select(_)) => {
                return Err(SparqlError::QueryTypeNotSupported);
            },
            Err(e) => {
                return Err(e);
            },
        };
        let ghost vv = v@.map_values(|e: (Batch, RDFNodeType)| (e.0@, e.1@));
        proof {
            assert(query_spec(*q, old(self)@.tables) == Ok::<QueryResultV, SparqlErrorV>(QueryResultV::Construct(vv)));
        }
        let mut ts: Vec<TriplesToAdd> = Vec::new();
        let mut rest = v;
        let ghost orig = rest@;
        let total = rest.len();
        let mut k: usize = 0;
        while rest.len() > 0
            invariant
                k <= orig.len(),
                orig.len() == total,
                rest@ == orig.skip(k as int),
                rest.len() == orig.len() - k,
                vv == orig.map_values(|e: (Batch, RDFNodeType)| (e.0@, e.1@)),
                query_spec(*q, old(self)@.tables) == Ok::<QueryResultV, SparqlErrorV>(QueryResultV::Construct(vv)),
                self@ == old(self)@,
                forall|j: int, i: int| 0 <= j < orig.len() && 0 <= i < orig[j].0.rows@.len() ==> #[trigger] orig[j].0.rows@[i]@.len() == 3,
                to_add_view(ts@) == construct_adds(vv.take(k as int)),
                forall|m: int| 0 <= m < ts@.len() ==> (#[trigger] ts@[m]).well_shaped(),
            decreases rest.len(),
        {
            let (b, ot) = rest.remove(0);
            proof {
                assert((b, ot) == orig[k as int]);
            }
            let t = TriplesToAdd { df: b, object_type: ot, language_tag: None, static_verb_column: None, has_unique_subset: false };
            let ghost before = ts@;
            ts.push(t);
            proof {
                assert(construct_adds(vv.take(k as int + 1)) =~= construct_adds(vv.take(k as int)).push(t@));
                assert(to_add_view(ts@) =~= to_add_view(before).push(t@));
                assert forall|i: int| 0 <= i < t.df.rows@.len() implies 3 <= #[trigger] t.df.rows@[i]@.len() by {
                    assert(orig[k as int].0.rows@[i]@.len() == 3);
                }
            }
            k += 1;
            proof {
                assert(rest@ =~= orig.skip(k as int));
            }
        }
        proof {
            assert(vv.take(k as int) =~= vv);
        }
        let call_uuid = new_call_uuid();
        let ghost ts_v = to_add_view(ts@);
        let pending = self.add_triples_vec(ts, &call_uuid);
        proof {
            assert(ts_v == construct_adds(vv));
            assert(absorbed(old(self)@, self@, construct_adds(vv), call_uuid@, tdfs_view(pending@)));
        }
        Ok(MappingReport { call_uuid, pending })
    }
}

/// One key of an ORDER BY: an expression and its direction.
pub enum OrderExpression {
    Asc(Expression),
    Desc(Expression),
}

pub open spec fn order_expr(o: OrderExpression) -> Expression {
    match o {
        OrderExpression::Asc(e) => e,
        OrderExpression::Desc(e) => e,
    }
}

pub open spec fn order_ascending(o: OrderExpression) -> bool {
    o is Asc
}

/// The order of the kinds of cells: nulls first, then IRIs, texts,
/// integers, booleans and lists.
pub open spec fn rank(v: ValueV) -> int {
    match v {
        ValueV::Null => 0,
        ValueV::Item(ScalarV::Iri(_)) => 1,
        ValueV::Item(ScalarV::Text(_)) => 2,
        ValueV::Item(ScalarV::Int(_)) => 3,
        ValueV::Item(ScalarV::Bool(_)) => 4,
        ValueV::List(_) => 5,
    }
}

/// Lexicographic order of character sequences.
pub open spec fn text_lt(a: Seq<char>, b: Seq<char>) -> bool
    decreases a.len(),
{
    if a.len() == 0 {
        b.len() > 0
    } else if b.len() == 0 {
        false
    } else if a[0] != b[0] {
        (a[0] as u32) < (b[0] as u32)
    } else {
        text_lt(a.subrange(1, a.len() as int), b.subrange(1, b.len() as int))
    }
}

/// The order in which sorting puts cells.
pub open spec fn value_lt(a: ValueV, b: ValueV) -> bool {
    if rank(a) != rank(b) {
        rank(a) < rank(b)
    } else {
        match (a, b) {
            (ValueV::Item(ScalarV::Iri(x)), ValueV::Item(ScalarV::Iri(y))) => text_lt(x, y),
            (ValueV::Item(ScalarV::Text(x)), ValueV::Item(ScalarV::Text(y))) => text_lt(x, y),
            (ValueV::Item(ScalarV::Int(x)), ValueV::Item(ScalarV::Int(y))) => x < y,
            (ValueV::Item(ScalarV::Bool(x)), ValueV::Item(ScalarV::Bool(y))) => !x && y,
            _ => false,
        }
    }
}

/// Whether key `a` sorts strictly before key `b`, comparing from the first
/// key on, each in its direction.
pub open spec fn key_lt(a: Seq<ValueV>, b: Seq<ValueV>, asc: Seq<bool>) -> bool
    decreases asc.len(),
{
    if asc.len() == 0 || a.len() == 0 || b.len() == 0 {
        false
    } else if a[0] == b[0] {
        key_lt(a.subrange(1, a.len() as int), b.subrange(1, b.len() as int), asc.subrange(1, asc.len() as int))
    } else if asc[0] {
        value_lt(a[0], b[0])
    } else {
        value_lt(b[0], a[0])
    }
}

/// The position where a stable insertion puts `k` among `keys`: before the
/// first key that `k` sorts strictly before.
pub open spec fn insert_pos(keys: Seq<Seq<ValueV>>, k: Seq<ValueV>, asc: Seq<bool>) -> int
    decreases keys.len(),
{
    if keys.len() == 0 {
        0
    } else if key_lt(k, keys[0], asc) {
        0
    } else {
        1 + insert_pos(keys.subrange(1, keys.len() as int), k, asc)
    }
}

/// Stable sorting of keyed rows by insertion, in input order.
pub open spec fn sort_keyed(items: Seq<(Seq<ValueV>, Seq<ValueV>)>, asc: Seq<bool>) -> Seq<(Seq<ValueV>, Seq<ValueV>)>
    decreases items.len(),
{
    if items.len() == 0 {
        seq![]
    } else {
        let p = sort_keyed(items.drop_last(), asc);
        let x = items.last();
        p.insert(insert_pos(p.map_values(|e: (Seq<ValueV>, Seq<ValueV>)| e.0), x.0, asc), x)
    }
}

pub open spec fn order_keys(os: Seq<OrderExpression>, names: Seq<Seq<char>>, types: Seq<(Seq<char>, NodeTypeV)>, r: Seq<ValueV>) -> Seq<ValueV> {
    os.map_values(|o: OrderExpression| eval_spec(order_expr(o), names, types, r))
}

/// ORDER BY: rows sorted stably by their keys.
pub open spec fn order_spec(s: SolV, os: Seq<OrderExpression>) -> SolV {
    let asc = os.map_values(|o: OrderExpression| order_ascending(o));
    let items = s.rows.map_values(|r: Seq<ValueV>| (order_keys(os, s.names, s.types, r), r));
    SolV { rows: sort_keyed(items, asc).map_values(|e: (Seq<ValueV>, Seq<ValueV>)| e.1), ..s }
}

fn text_lt_exec(a: &str, b: &str) -> (r: bool)
    ensures
        r == text_lt(a@, b@),
{
    let n = a.unicode_len();
    let m = b.unicode_len();
    let mut i: usize = 0;
    proof {
        assert(a@.subrange(0, n as int) =~= a@);
        assert(b@.subrange(0, m as int) =~= b@);
    }
    while i < n && i < m
        invariant
            i <= n,
            i <= m,
            n == a@.len(),
            m == b@.len(),
            text_lt(a@, b@) == text_lt(a@.subrange(i as int, n as int), b@.subrange(i as int, m as int)),
        decreases n - i,
    {
        let x = a.get_char(i);
        let y = b.get_char(i);
        let ghost sa = a@.subrange(i as int, n as int);
        let ghost sb = b@.subrange(i as int, m as int);
        proof {
            assert(sa[0] == x && sb[0] == y);
            assert(sa.subrange(1, sa.len() as int) =~= a@.subrange(i as int + 1, n as int));
            assert(sb.subrange(1, sb.len() as int) =~= b@.subrange(i as int + 1, m as int));
        }
        if x != y {
            return (x as u32) < (y as u32);
        }
        i += 1;
    }
    i < m && i >= n
}

fn value_lt_exec(a: &Value, b: &Value) -> (r: bool)
    ensures
        r == value_lt(a@, b@),
{
    match (a, b) {
        (Value::Item(Scalar::Iri(x)), Value::Item(Scalar::Iri(y))) => text_lt_exec(x.as_str(), y.as_str()),
        (Value::Item(Scalar::Text(x)), Value::Item(Scalar::Text(y))) => text_lt_exec(x.as_str(), y.as_str()),
        (Value::Item(Scalar::Int(x)), Value::Item(Scalar::Int(y))) => *x < *y,
        (Value::Item(Scalar::Bool(x)), Value::Item(Scalar::Bool(y))) => !*x && *y,
        _ => rank_exec(a) < rank_exec(b),
    }
}

fn rank_exec(v: &Value) -> (r: u8)
    ensures
        r as int == rank(v@),
{
    match v {
        Value::Null => 0,
        Value::Item(Scalar::Iri(_)) => 1,
        Value::Item(Scalar::Text(_)) => 2,
        Value::Item(Scalar::Int(_)) => 3,
        Value::Item(Scalar::Bool(_)) => 4,
        Value::List(_) => 5,
    }
}

fn key_lt_exec(a: &Vec<Value>, b: &Vec<Value>, asc: &Vec<bool>) -> (r: bool)
    ensures
        r == key_lt(row_view(a@), row_view(b@), asc@),
{
    let ghost av = row_view(a@);
    let ghost bv = row_view(b@);
    let mut i: usize = 0;
    proof {
        assert(av.subrange(0, av.len() as int) =~= av);
        assert(bv.subrange(0, bv.len() as int) =~= bv);
        assert(asc@.subrange(0, asc@.len() as int) =~= asc@);
    }
    while i < asc.len() && i < a.len() && i < b.len()
        invariant
            i <= asc.len(),
            i <= a.len(),
            i <= b.len(),
            av == row_view(a@),
            bv == row_view(b@),
            key_lt(av, bv, asc@) == key_lt(av.subrange(i as int, av.len() as int), bv.subrange(i as int, bv.len() as int), asc@.subrange(i as int, asc@.len() as int)),
        decreases asc.len() - i,
    {
        let ghost sa = av.subrange(i as int, av.len() as int);
        let ghost sb = bv.subrange(i as int, bv.len() as int);
        let ghost sc = asc@.subrange(i as int, asc@.len() as int);
        proof {
            assert(sa[0] == a@[i as int]@ && sb[0] == b@[i as int]@ && sc[0] == asc@[i as int]);
            assert(sa.subrange(1, sa.len() as int) =~= av.subrange(i as int + 1, av.len() as int));
            assert(sb.subrange(1, sb.len() as int) =~= bv.subrange(i as int + 1, bv.len() as int));
            assert(sc.subrange(1, sc.len() as int) =~= asc@.subrange(i as int + 1, asc@.len() as int));
        }
        if !a[i].same(&b[i]) {
            return if asc[i] { value_lt_exec(&a[i], &b[i]) } else { value_lt_exec(&b[i], &a[i]) };
        }
        i += 1;
    }
    false
}

fn insert_pos_exec(keys: &Vec<Vec<Value>>, k: &Vec<Value>, asc: &Vec<bool>) -> (p: usize)
    ensures
        p as int == insert_pos(rows_view(keys@), row_view(k@), asc@),
        p <= keys@.len(),
{
    let ghost kv = rows_view(keys@);
    let mut i: usize = 0;
    proof {
        assert(kv.subrange(0, kv.len() as int) =~= kv);
    }
    while i < keys.len()
        invariant
            i <= keys.len(),
            kv == rows_view(keys@),
            insert_pos(kv, row_view(k@), asc@) == i + insert_pos(kv.subrange(i as int, kv.len() as int), row_view(k@), asc@),
        decreases keys.len() - i,
    {
        let ghost sub = kv.subrange(i as int, kv.len() as int);
        proof {
            assert(sub[0] == row_view(keys@[i as int]@));
            assert(sub.subrange(1, sub.len() as int) =~= kv.subrange(i as int + 1, kv.len() as int));
        }
        if key_lt_exec(k, &keys[i], asc) {
            return i;
        }
        i += 1;
    }
    i
}

/// Evaluates the expression of one ORDER BY key on every row: the keys,
/// whether they sort ascending, and the context they were made in.
pub fn order_key_column(oexpr: &OrderExpression, sol: &SolutionMappings, context: &Context) -> (r: (Vec<Value>, bool, Context))
    requires
        sol.wf(),
    ensures
        row_view(r.0@) == sol@.rows.map_values(|row: Seq<ValueV>| eval_spec(order_expr(*oexpr), sol@.names, sol@.types, row)),
        r.1 == order_ascending(*oexpr),
        r.2.path@ == context.path@.push(PathEntry::OrderingOperation),
{
    let (e, asc) = match oexpr {
        OrderExpression::Asc(e) => (e, true),
        OrderExpression::Desc(e) => (e, false),
    };
    let inner = context.extension_with(PathEntry::OrderingOperation);
    proof {
        lemma_rows_view_width(sol.mappings.rows@, sol@.names.len());
    }
    let mut keys: Vec<Value> = Vec::new();
    let mut i: usize = 0;
    while i < sol.mappings.rows.len()
        invariant
            i <= sol.mappings.rows.len(),
            keys@.len() == i,
            *e == order_expr(*oexpr),
            forall|j: int| 0 <= j < sol.mappings.rows@.len() ==> #[trigger] sol.mappings.rows@[j]@.len() == sol@.names.len(),
            forall|m: int| 0 <= m < i ==> (#[trigger] keys@[m])@ == eval_spec(*e, sol@.names, sol@.types, row_view(sol.mappings.rows@[m]@)),
        decreases sol.mappings.rows.len() - i,
    {
        keys.push(eval_expr(e, &sol.mappings.names, &sol.rdf_node_types, &sol.mappings.rows[i]));
        i += 1;
    }
    proof {
        assert forall|m: int| 0 <= m < keys@.len() implies #[trigger] row_view(keys@)[m] == sol@.rows.map_values(|row: Seq<ValueV>| eval_spec(order_expr(*oexpr), sol@.names, sol@.types, row))[m] by {
            assert(sol@.rows[m] == row_view(sol.mappings.rows@[m]@));
        }
        assert(row_view(keys@) =~= sol@.rows.map_values(|row: Seq<ValueV>| eval_spec(order_expr(*oexpr), sol@.names, sol@.types, row)));
    }
    (keys, asc, inner)
}

fn order_exec(s: SolutionMappings, os: &Vec<OrderExpression>, ctx: &Context) -> (o: SolutionMappings)
    requires
        s.wf(),
    ensures
        o@ == order_spec(s@, os@),
        o.wf(),
{
    let ghost sv = s@;
    let ghost asc_v = os@.map_values(|o: OrderExpression| order_ascending(o));
    let ghost items = sv.rows.map_values(|r: Seq<ValueV>| (order_keys(os@, sv.names, sv.types, r), r));
    let mut asc: Vec<bool> = Vec::new();
    let mut columns: Vec<Vec<Value>> = Vec::new();
    let mut k: usize = 0;
    while k < os.len()
        invariant
            k <= os.len(),
            s.wf(),
            sv == s@,
            asc@.len() == k,
            columns@.len() == k,
            forall|m: int| 0 <= m < k ==> #[trigger] asc@[m] == order_ascending(os@[m]),
            forall|m: int| 0 <= m < k ==> row_view((#[trigger] columns@[m])@) == sv.rows.map_values(|row: Seq<ValueV>| eval_spec(order_expr(os@[m]), sv.names, sv.types, row)),
        decreases os.len() - k,
    {
        let (col, a, _) = order_key_column(&os[k], &s, ctx);
        asc.push(a);
        columns.push(col);
        k += 1;
    }
    proof {
        assert(asc@ =~= asc_v);
    }
    let SolutionMappings { mappings, rdf_node_types } = s;
    let Batch { names, rows } = mappings;
    let ghost n = names@.len();
    proof {
        lemma_rows_view_width(rows@, n);
    }
    let mut sorted_keys: Vec<Vec<Value>> = Vec::new();
    let mut sorted_rows: Vec<Vec<Value>> = Vec::new();
    let mut i: usize = 0;
    proof {
        assert(items.take(0) =~= Seq::<(Seq<ValueV>, Seq<ValueV>)>::empty());
        assert(rows_view(sorted_keys@) =~= Seq::<Seq<ValueV>>::empty());
        assert(rows_view(sorted_rows@) =~= Seq::<Seq<ValueV>>::empty());
    }
    while i < rows.len()
        invariant
            i <= rows.len(),
            sv.rows == rows_view(rows@),
            sv.names == names_view(names@),
            asc@ == asc_v,
            columns@.len() == os@.len(),
            items == sv.rows.map_values(|r: Seq<ValueV>| (order_keys(os@, sv.names, sv.types, r), r)),
            forall|m: int| 0 <= m < os@.len() ==> row_view((#[trigger] columns@[m])@) == sv.rows.map_values(|row: Seq<ValueV>| eval_spec(order_expr(os@[m]), sv.names, sv.types, row)),
            forall|j: int| 0 <= j < rows@.len() ==> #[trigger] rows@[j]@.len() == n,
            rows_view(sorted_keys@) == sort_keyed(items.take(i as int), asc_v).map_values(|e: (Seq<ValueV>, Seq<ValueV>)| e.0),
            rows_view(sorted_rows@) == sort_keyed(items.take(i as int), asc_v).map_values(|e: (Seq<ValueV>, Seq<ValueV>)| e.1),
            sorted_keys@.len() == sorted_rows@.len(),
            forall|j: int| 0 <= j < sorted_rows@.len() ==> #[trigger] sorted_rows@[j]@.len() == n,
        decreases rows.len() - i,
    {
        let mut key: Vec<Value> = Vec::new();
        let mut c: usize = 0;
        while c < columns.len()
            invariant
                c <= columns.len(),
                i < rows.len(),
                key@.len() == c,
                columns@.len() == os@.len(),
                sv.rows == rows_view(rows@),
                forall|m: int| 0 <= m < os@.len() ==> row_view((#[trigger] columns@[m])@) == sv.rows.map_values(|row: Seq<ValueV>| eval_spec(order_expr(os@[m]), sv.names, sv.types, row)),
                forall|m: int| 0 <= m < c ==> (#[trigger] key@[m])@ == eval_spec(order_expr(os@[m]), sv.names, sv.types, sv.rows[i as int]),
            decreases columns.len() - c,
        {
            proof {
                assert(row_view(columns@[c as int]@).len() == sv.rows.len());
                assert(columns@[c as int]@.len() == rows@.len());
                assert(row_view(columns@[c as int]@)[i as int] == columns@[c as int]@[i as int]@);
            }
            key.push(columns[c][i].copy());
            c += 1;
        }
        let ghost prev = sort_keyed(items.take(i as int), asc_v);
        let ghost x = items[i as int];
        proof {
            assert(row_view(key@) =~= order_keys(os@, sv.names, sv.types, sv.rows[i as int]));
            assert(x == (order_keys(os@, sv.names, sv.types, sv.rows[i as int]), sv.rows[i as int]));
            assert(items.take(i as int + 1).drop_last() =~= items.take(i as int));
            assert(items.take(i as int + 1).last() == x);
        }
        let p = insert_pos_exec(&sorted_keys, &key, &asc);
        let r = copy_row(&rows[i]);
        let ghost sk = sorted_keys@;
        let ghost sr = sorted_rows@;
        let ghost kv = row_view(key@);
        let ghost rv1 = row_view(r@);
        sorted_keys.insert(p, key);
        sorted_rows.insert(p, r);
        proof {
            let ins = prev.insert(p as int, x);
            assert(sort_keyed(items.take(i as int + 1), asc_v) == ins);
            assert(rv1 == x.1);
            assert(kv == x.0);
            assert(rows_view(sorted_keys@) =~= rows_view(sk).insert(p as int, kv));
            assert(rows_view(sorted_rows@) =~= rows_view(sr).insert(p as int, rv1));
            assert(ins.map_values(|e: (Seq<ValueV>, Seq<ValueV>)| e.0) =~= prev.map_values(|e: (Seq<ValueV>, Seq<ValueV>)| e.0).insert(p as int, x.0));
            assert(ins.map_values(|e: (Seq<ValueV>, Seq<ValueV>)| e.1) =~= prev.map_values(|e: (Seq<ValueV>, Seq<ValueV>)| e.1).insert(p as int, x.1));
            assert(rows_view(sorted_keys@) =~= ins.map_values(|e: (Seq<ValueV>, Seq<ValueV>)| e.0));
            assert(rows_view(sorted_rows@) =~= ins.map_values(|e: (Seq<ValueV>, Seq<ValueV>)| e.1));
            assert forall|j: int| 0 <= j < sorted_rows@.len() implies #[trigger] sorted_rows@[j]@.len() == n by {
                if j < p {
                    assert(sorted_rows@[j] == sr[j]);
                } else if j > p {
                    assert(sorted_rows@[j] == sr[j - 1]);
                }
            }
        }
        i += 1;
    }
    proof {
        assert(items.take(i as int) =~= items);
        lemma_rows_view_width(sorted_rows@, n);
    }
    SolutionMappings { mappings: Batch { names, rows: sorted_rows }, rdf_node_types }
}

impl Triplestore {
    /// Evaluates one ORDER BY key over solutions of this store (see
    /// [`order_key_column`]).
    pub fn lazy_order_expression(&self, oexpr: &OrderExpression, solution_mappings: &SolutionMappings, context: &Context) -> (r: (Vec<Value>, bool, Context))
        requires
            solution_mappings.wf(),
        ensures
            row_view(r.0@) == solution_mappings@.rows.map_values(|row: Seq<ValueV>| eval_spec(order_expr(*oexpr), solution_mappings@.names, solution_mappings@.types, row)),
            r.1 == order_ascending(*oexpr),
            r.2.path@ == context.path@.push(PathEntry::OrderingOperation),
    {
        order_key_column(oexpr, solution_mappings, context)
    }
}

/// An aggregate of a GROUP BY.
pub enum Aggregate {
    Count(Option<Expression>),
    Sum(Expression),
    Min(Expression),
    Max(Expression),
    Sample(Expression),
    GroupConcat(Expression, String),
}

/// The text of a value: the lexical form of a single value, empty otherwise.
pub open spec fn value_text(v: ValueV) -> Seq<char> {
    match v {
        ValueV::Item(s) => lexical(s),
        _ => seq![],
    }
}

/// The texts of the values joined by `sep`.
pub open spec fn concat_texts(vs: Seq<ValueV>, sep: Seq<char>) -> Seq<char>
    decreases vs.len(),
{
    if vs.len() == 0 {
        seq![]
    } else if vs.len() == 1 {
        value_text(vs[0])
    } else {
        concat_texts(vs.drop_last(), sep) + sep + value_text(vs.last())
    }
}

/// The rows of `rows` whose key columns `cols` hold `key`, in order.
pub open spec fn group_members(rows: Seq<Seq<ValueV>>, cols: Seq<int>, key: Seq<ValueV>) -> Seq<Seq<ValueV>>
    decreases rows.len(),
{
    if rows.len() == 0 {
        seq![]
    } else {
        let p = group_members(rows.drop_last(), cols, key);
        if pick(rows.last(), cols) == key { p.push(rows.last()) } else { p }
    }
}

/// The values of `e` on the rows, nulls left out.
pub open spec fn bound_values(e: Expression, names: Seq<Seq<char>>, types: Seq<(Seq<char>, NodeTypeV)>, rows: Seq<Seq<ValueV>>) -> Seq<ValueV>
    decreases rows.len(),
{
    if rows.len() == 0 {
        seq![]
    } else {
        let p = bound_values(e, names, types, rows.drop_last());
        let v = eval_spec(e, names, types, rows.last());
        if v is Null { p } else { p.push(v) }
    }
}

/// The sum of integer values; null once a value is not an integer or the
/// sum leaves the range of `i64`.
pub open spec fn sum_values(vs: Seq<ValueV>) -> ValueV
    decreases vs.len(),
{
    if vs.len() == 0 {
        ValueV::Item(ScalarV::Int(0))
    } else {
        match (sum_values(vs.drop_last()), vs.last()) {
            (ValueV::Item(ScalarV::Int(a)), ValueV::Item(ScalarV::Int(b))) => int_cell(a + b),
            _ => ValueV::Null,
        }
    }
}

/// The least (or, with `greatest`, the greatest) value in sorting order;
/// the first of equal ones; null for none.
pub open spec fn extreme_value(vs: Seq<ValueV>, greatest: bool) -> ValueV
    decreases vs.len(),
{
    if vs.len() == 0 {
        ValueV::Null
    } else {
        let p = extreme_value(vs.drop_last(), greatest);
        let v = vs.last();
        if p is Null || (if greatest { value_lt(p, v) } else { value_lt(v, p) }) { v } else { p }
    }
}

pub open spec fn aggregate_value(a: Aggregate, names: Seq<Seq<char>>, types: Seq<(Seq<char>, NodeTypeV)>, members: Seq<Seq<ValueV>>) -> ValueV {
    match a {
        Aggregate::Count(None) => int_cell(members.len() as int),
        Aggregate::Count(Some(e)) => int_cell(bound_values(e, names, types, members).len() as int),
        Aggregate::Sum(e) => sum_values(bound_values(e, names, types, members)),
        Aggregate::Min(e) => extreme_value(bound_values(e, names, types, members), false),
        Aggregate::Max(e) => extreme_value(bound_values(e, names, types, members), true),
        Aggregate::Sample(e) => if bound_values(e, names, types, members).len() > 0 { bound_values(e, names, types, members)[0] } else { ValueV::Null },
        Aggregate::GroupConcat(e, sep) => ValueV::Item(ScalarV::Text(concat_texts(bound_values(e, names, types, members), sep@))),
    }
}

pub open spec fn aggregate_type(a: Aggregate, types: Seq<(Seq<char>, NodeTypeV)>) -> NodeTypeV {
    match a {
        Aggregate::Count(_) => NodeTypeV::Literal(crate::model::xsd_long_iri()),
        Aggregate::Sum(_) => NodeTypeV::Literal(crate::model::xsd_long_iri()),
        Aggregate::Min(e) => expr_type(e, types),
        Aggregate::Max(e) => expr_type(e, types),
        Aggregate::Sample(e) => expr_type(e, types),
        Aggregate::GroupConcat(..) => NodeTypeV::Literal(xsd_string_iri()),
    }
}

/// GROUP BY `keys` with aggregates bound to their variables; groups come
/// in order of first appearance.
pub open spec fn group_spec(s: SolV, keys: Seq<Seq<char>>, aggs: Seq<(Seq<char>, Aggregate)>, ctx: Seq<PathEntry>) -> Result<SolV, SparqlErrorV> {
    if exists|k: int| 0 <= k < keys.len() && index_of(s.names, #[trigger] keys[k]) < 0 {
        let k = choose|k: int| 0 <= k < keys.len() && index_of(s.names, #[trigger] keys[k]) < 0
            && forall|m: int| 0 <= m < k ==> index_of(s.names, #[trigger] keys[m]) >= 0;
        Err(SparqlErrorV::VariableNotFound(keys[k], ctx))
    } else {
        let cols = keys.map_values(|v: Seq<char>| index_of(s.names, v));
        let groups = unique_first(s.rows.map_values(|r: Seq<ValueV>| pick(r, cols)));
        Ok(SolV {
            names: keys + aggs.map_values(|a: (Seq<char>, Aggregate)| a.0),
            rows: groups.map_values(|g: Seq<ValueV>| g + aggs.map_values(|a: (Seq<char>, Aggregate)|
                aggregate_value(a.1, s.names, s.types, group_members(s.rows, cols, g)))),
            types: s.types.filter(|e: (Seq<char>, NodeTypeV)| keys.contains(e.0))
                + aggs.map_values(|a: (Seq<char>, Aggregate)| (a.0, aggregate_type(a.1, s.types))),
        })
    }
}

fn bound_values_exec(e: &Expression, names: &Vec<String>, types: &Vec<(String, RDFNodeType)>, rows: &Vec<Vec<Value>>) -> (out: Vec<Value>)
    requires
        forall|i: int| 0 <= i < rows@.len() ==> #[trigger] rows@[i]@.len() == names@.len(),
    ensures
        row_view(out@) == bound_values(*e, names_view(names@), types_view(types@), rows_view(rows@)),
{
    let ghost rv = rows_view(rows@);
    let mut out: Vec<Value> = Vec::new();
    let mut i: usize = 0;
    proof {
        assert(rv.take(0) =~= Seq::<Seq<ValueV>>::empty());
        assert(row_view(out@) =~= Seq::<ValueV>::empty());
    }
    while i < rows.len()
        invariant
            i <= rows.len(),
            rv == rows_view(rows@),
            forall|i: int| 0 <= i < rows@.len() ==> #[trigger] rows@[i]@.len() == names@.len(),
            row_view(out@) == bound_values(*e, names_view(names@), types_view(types@), rv.take(i as int)),
        decreases rows.len() - i,
    {
        proof {
            assert(rv.take(i as int + 1).drop_last() =~= rv.take(i as int));
            assert(rv.take(i as int + 1).last() == row_view(rows@[i as int]@));
        }
        let v = eval_expr(e, names, types, &rows[i]);
        if !v.is_null() {
            let ghost before = out@;
            out.push(v);
            proof {
                assert(row_view(out@) =~= row_view(before).push(v@));
            }
        }
        i += 1;
    }
    proof {
        assert(rv.take(i as int) =~= rv);
    }
    out
}

fn sum_exec(vs: &Vec<Value>) -> (r: Value)
    ensures
        r@ == sum_values(row_view(vs@)),
{
    let ghost vv = row_view(vs@);
    let mut acc = Value::Item(Scalar::Int(0));
    let mut i: usize = 0;
    proof {
        assert(vv.take(0) =~= Seq::<ValueV>::empty());
    }
    while i < vs.len()
        invariant
            i <= vs.len(),
            vv == row_view(vs@),
            acc@ == sum_values(vv.take(i as int)),
        decreases vs.len() - i,
    {
        proof {
            assert(vv.take(i as int + 1).drop_last() =~= vv.take(i as int));
            assert(vv.take(i as int + 1).last() == vs@[i as int]@);
        }
        acc = match (&acc, &vs[i]) {
            (Value::Item(Scalar::Int(a)), Value::Item(Scalar::Int(b))) => int_value(a.checked_add(*b)),
            _ => Value::Null,
        };
        i += 1;
    }
    proof {
        assert(vv.take(i as int) =~= vv);
    }
    acc
}

fn extreme_exec(vs: &Vec<Value>, greatest: bool) -> (r: Value)
    ensures
        r@ == extreme_value(row_view(vs@), greatest),
{
    let ghost vv = row_view(vs@);
    let mut acc = Value::Null;
    let mut i: usize = 0;
    proof {
        assert(vv.take(0) =~= Seq::<ValueV>::empty());
    }
    while i < vs.len()
        invariant
            i <= vs.len(),
            vv == row_view(vs@),
            acc@ == extreme_value(vv.take(i as int), greatest),
        decreases vs.len() - i,
    {
        proof {
            assert(vv.take(i as int + 1).drop_last() =~= vv.take(i as int));
            assert(vv.take(i as int + 1).last() == vs@[i as int]@);
        }
        let v = &vs[i];
        let replace = acc.is_null() || (if greatest { value_lt_exec(&acc, v) } else { value_lt_exec(v, &acc) });
        if replace {
            acc = v.copy();
        }
        i += 1;
    }
    proof {
        assert(vv.take(i as int) =~= vv);
    }
    acc
}

fn count_value(n: usize) -> (v: Value)
    ensures
        v@ == int_cell(n as int),
{
    let m = n as u64;
    if m <= 9223372036854775807u64 {
        Value::Item(Scalar::Int(m as i64))
    } else {
        Value::Null
    }
}

fn push_value_text(out: &mut String, v: &Value)
    ensures
        final(out)@ == old(out)@ + value_text(v@),
{
    match v {
        Value::Item(s) => push_lexical(out, s),
        _ => {
            proof {
                assert(old(out)@ + value_text(v@) =~= old(out)@);
            }
        },
    }
}

fn concat_texts_exec(vs: &Vec<Value>, sep: &String) -> (r: String)
    ensures
        r@ == concat_texts(row_view(vs@), sep@),
{
    let ghost vv = row_view(vs@);
    let mut out = String::new();
    let mut i: usize = 0;
    proof {
        assert(vv.take(0) =~= Seq::<ValueV>::empty());
    }
    while i < vs.len()
        invariant
            i <= vs.len(),
            vv == row_view(vs@),
            out@ == concat_texts(vv.take(i as int), sep@),
        decreases vs.len() - i,
    {
        let ghost before = out@;
        if i > 0 {
            out.append(sep.as_str());
        }
        push_value_text(&mut out, &vs[i]);
        proof {
            assert(vv.take(i as int + 1).drop_last() =~= vv.take(i as int));
            assert(vv.take(i as int + 1).last() == vs@[i as int]@);
            if i == 0 {
                assert(vv.take(1)[0] == vs@[0]@);
                assert(out@ =~= value_text(vs@[0]@));
            } else {
                assert(out@ =~= before + sep@ + value_text(vs@[i as int]@));
            }
        }
        i += 1;
    }
    proof {
        assert(vv.take(i as int) =~= vv);
    }
    out
}

fn aggregate_exec(a: &Aggregate, names: &Vec<String>, types: &Vec<(String, RDFNodeType)>, members: &Vec<Vec<Value>>) -> (v: Value)
    requires
        forall|i: int| 0 <= i < members@.len() ==> #[trigger] members@[i]@.len() == names@.len(),
    ensures
        v@ == aggregate_value(*a, names_view(names@), types_view(types@), rows_view(members@)),
{
    match a {
        Aggregate::Count(None) => count_value(members.len()),
        Aggregate::Count(Some(e)) => count_value(bound_values_exec(e, names, types, members).len()),
        Aggregate::Sum(e) => sum_exec(&bound_values_exec(e, names, types, members)),
        Aggregate::Min(e) => extreme_exec(&bound_values_exec(e, names, types, members), false),
        Aggregate::Max(e) => extreme_exec(&bound_values_exec(e, names, types, members), true),
        Aggregate::Sample(e) => {
            let vs = bound_values_exec(e, names, types, members);
            if vs.len() > 0 { vs[0].copy() } else { Value::Null }
        },
        Aggregate::GroupConcat(e, sep) => {
            let vs = bound_values_exec(e, names, types, members);
            Value::Item(Scalar::Text(concat_texts_exec(&vs, sep)))
        },
    }
}

fn aggregate_type_exec(a: &Aggregate, types: &Vec<(String, RDFNodeType)>) -> (t: RDFNodeType)
    ensures
        t@ == aggregate_type(*a, types_view(types@)),
{
    match a {
        Aggregate::Count(_) => RDFNodeType::Literal(crate::model::xsd_long()),
        Aggregate::Sum(_) => RDFNodeType::Literal(crate::model::xsd_long()),
        Aggregate::Min(e) => expr_type_exec(e, types),
        Aggregate::Max(e) => expr_type_exec(e, types),
        Aggregate::Sample(e) => expr_type_exec(e, types),
        Aggregate::GroupConcat(..) => RDFNodeType::Literal(crate::model::xsd_string()),
    }
}

fn group_members_exec(rows: &Vec<Vec<Value>>, cols: &Vec<usize>, key: &Vec<Value>, Ghost(n): Ghost<nat>) -> (out: Vec<Vec<Value>>)
    requires
        forall|i: int| 0 <= i < rows@.len() ==> #[trigger] rows@[i]@.len() == n,
        forall|k: int| 0 <= k < cols@.len() ==> #[trigger] cols@[k] < n,
    ensures
        rows_view(out@) == group_members(rows_view(rows@), cols@.map_values(|c: usize| c as int), row_view(key@)),
        forall|i: int| 0 <= i < out@.len() ==> #[trigger] out@[i]@.len() == n,
{
    let ghost rv = rows_view(rows@);
    let ghost cv = cols@.map_values(|c: usize| c as int);
    let mut out: Vec<Vec<Value>> = Vec::new();
    let mut i: usize = 0;
    proof {
        assert(rv.take(0) =~= Seq::<Seq<ValueV>>::empty());
        assert(rows_view(out@) =~= Seq::<Seq<ValueV>>::empty());
    }
    while i < rows.len()
        invariant
            i <= rows.len(),
            rv == rows_view(rows@),
            cv == cols@.map_values(|c: usize| c as int),
            forall|i: int| 0 <= i < rows@.len() ==> #[trigger] rows@[i]@.len() == n,
            forall|k: int| 0 <= k < cols@.len() ==> #[trigger] cols@[k] < n,
            rows_view(out@) == group_members(rv.take(i as int), cv, row_view(key@)),
            forall|i: int| 0 <= i < out@.len() ==> #[trigger] out@[i]@.len() == n,
        decreases rows.len() - i,
    {
        proof {
            assert(rv.take(i as int + 1).drop_last() =~= rv.take(i as int));
            assert(rv.take(i as int + 1).last() == row_view(rows@[i as int]@));
        }
        let k = pick_exec(&rows[i], cols);
        if same_row(&k, key) {
            let r = copy_row(&rows[i]);
            proof {
                lemma_rows_view_push(out@, r);
            }
            out.push(r);
        }
        i += 1;
    }
    proof {
        assert(rv.take(i as int) =~= rv);
    }
    out
}

fn key_columns(s: &SolutionMappings, keys: &Vec<String>, ctx: &Context) -> (r: Result<Vec<usize>, SparqlError>)
    requires
        s.wf(),
    ensures
        match r {
            Ok(cols) => !(exists|k: int| 0 <= k < keys@.len() && index_of(s@.names, #[trigger] names_view(keys@)[k]) < 0)
                && cols@.map_values(|c: usize| c as int) == names_view(keys@).map_values(|v: Seq<char>| index_of(s@.names, v))
                && forall|m: int| 0 <= m < cols@.len() ==> #[trigger] cols@[m] < s@.names.len(),
            Err(e) => exists|k: int| 0 <= k < keys@.len() && index_of(s@.names, #[trigger] names_view(keys@)[k]) < 0
                && e@ == SparqlErrorV::VariableNotFound(names_view(keys@)[choose|k: int| 0 <= k < keys@.len()
                    && index_of(s@.names, #[trigger] names_view(keys@)[k]) < 0
                    && forall|m: int| 0 <= m < k ==> index_of(s@.names, #[trigger] names_view(keys@)[m]) >= 0], ctx.path@),
        },
{
    let ghost vv = names_view(keys@);
    let ghost sn = s@.names;
    let mut cols: Vec<usize> = Vec::new();
    let mut k: usize = 0;
    while k < keys.len()
        invariant
            k <= keys.len(),
            vv == names_view(keys@),
            sn == s@.names,
            cols@.len() == k,
            forall|m: int| 0 <= m < k ==> index_of(sn, #[trigger] vv[m]) >= 0 && cols@[m] as int == index_of(sn, vv[m]),
            forall|m: int| 0 <= m < k ==> #[trigger] cols@[m] < sn.len(),
        decreases keys.len() - k,
    {
        match position(&s.mappings.names, &keys[k]) {
            Some(i) => cols.push(i),
            None => {
                proof {
                    let w = k as int;
                    assert(index_of(sn, vv[w]) < 0);
                    let c = choose|c: int| 0 <= c < vv.len() && index_of(sn, #[trigger] vv[c]) < 0
                        && forall|m: int| 0 <= m < c ==> index_of(sn, #[trigger] vv[m]) >= 0;
                    if c < w {
                        assert(index_of(sn, vv[c]) >= 0);
                    } else if c > w {
                        assert(index_of(sn, vv[w]) >= 0);
                    }
                }
                return Err(SparqlError::VariableNotFound(keys[k].clone(), copy_path(&ctx.path)));
            },
        }
        k += 1;
    }
    proof {
        assert(cols@.map_values(|c: usize| c as int) =~= vv.map_values(|v: Seq<char>| index_of(sn, v)));
    }
    Ok(cols)
}

fn filter_types(types: &Vec<(String, RDFNodeType)>, keys: &Vec<String>) -> (out: Vec<(String, RDFNodeType)>)
    ensures
        types_view(out@) == types_view(types@).filter(|e: (Seq<char>, NodeTypeV)| names_view(keys@).contains(e.0)),
{
    let ghost tv = types_view(types@);
    let ghost vv = names_view(keys@);
    let ghost f = |e: (Seq<char>, NodeTypeV)| vv.contains(e.0);
    let mut out: Vec<(String, RDFNodeType)> = Vec::new();
    let mut j: usize = 0;
    proof {
        assert(tv.take(0) =~= Seq::<(Seq<char>, NodeTypeV)>::empty());
        assert(tv.take(0).filter(f) =~= Seq::<(Seq<char>, NodeTypeV)>::empty());
        assert(keys@.map_values(|x: String| x@) == vv);
    }
    while j < types.len()
        invariant
            j <= types.len(),
            tv == types_view(types@),
            vv == names_view(keys@),
            keys@.map_values(|x: String| x@) == vv,
            f == (|e: (Seq<char>, NodeTypeV)| vv.contains(e.0)),
            types_view(out@) == tv.take(j as int).filter(f),
        decreases types.len() - j,
    {
        proof {
            assert(tv.take(j as int + 1).drop_last() =~= tv.take(j as int));
            reveal(Seq::filter);
            assert(tv.take(j as int + 1).last() == tv[j as int]);
        }
        if crate::triplestore::contains_string(keys, &types[j].0) {
            let ghost before = out@;
            out.push(copy_type_entry(&types[j]));
            proof {
                assert(types_view(out@) =~= types_view(before).push(tv[j as int]));
            }
        }
        j += 1;
    }
    proof {
        assert(tv.take(j as int) =~= tv);
    }
    out
}

pub open spec fn aggs_view(aggs: Seq<(String, Aggregate)>) -> Seq<(Seq<char>, Aggregate)> {
    aggs.map_values(|a: (String, Aggregate)| (a.0@, a.1))
}

fn group_exec(s: &SolutionMappings, keys: &Vec<String>, aggs: &Vec<(String, Aggregate)>, ctx: &Context) -> (o: Result<SolutionMappings, SparqlError>)
    requires
        s.wf(),
    ensures
        match o {
            Ok(g) => group_spec(s@, names_view(keys@), aggs_view(aggs@), ctx.path@) == Ok::<SolV, SparqlErrorV>(g@) && g.wf(),
            Err(e) => group_spec(s@, names_view(keys@), aggs_view(aggs@), ctx.path@) == Err::<SolV, SparqlErrorV>(e@),
        },
{
    let cols = key_columns(s, keys, ctx)?;
    let ghost sv = s@;
    let ghost cv = cols@.map_values(|c: usize| c as int);
    let ghost av = aggs_view(aggs@);
    let ghost n = sv.names.len();
    proof {
        lemma_rows_view_width(s.mappings.rows@, n);
    }
    let rows = &s.mappings.rows;
    let mut keyrows: Vec<Vec<Value>> = Vec::new();
    let mut i: usize = 0;
    while i < rows.len()
        invariant
            i <= rows.len(),
            keyrows@.len() == i,
            cv == cols@.map_values(|c: usize| c as int),
            forall|m: int| 0 <= m < cols@.len() ==> #[trigger] cols@[m] < n,
            n == sv.names.len(),
            sv == s@,
            forall|j: int| 0 <= j < rows@.len() ==> #[trigger] rows@[j]@.len() == n,
            forall|m: int| 0 <= m < i ==> row_view((#[trigger] keyrows@[m])@) == pick(row_view(rows@[m]@), cv),
            forall|m: int| 0 <= m < i ==> (#[trigger] keyrows@[m])@.len() == cols@.len(),
        decreases rows.len() - i,
    {
        keyrows.push(pick_exec(&rows[i], &cols));
        i += 1;
    }
    proof {
        assert forall|m: int| 0 <= m < keyrows@.len() implies #[trigger] rows_view(keyrows@)[m] == sv.rows.map_values(|r: Seq<ValueV>| pick(r, cv))[m] by {
            assert(sv.rows[m] == row_view(rows@[m]@));
        }
        assert(rows_view(keyrows@) =~= sv.rows.map_values(|r: Seq<ValueV>| pick(r, cv)));
    }
    let ghost kr = keyrows@;
    let groups = unique_rows(keyrows);
    let ghost gv = rows_view(groups@);
    proof {
        assert forall|m: int| 0 <= m < groups@.len() implies #[trigger] groups@[m]@.len() == cols@.len() by {
            let w = choose|w: int| 0 <= w < kr.len() && #[trigger] groups@[m]@.len() == kr[w]@.len();
            assert(kr[w]@.len() == cols@.len());
        }
    }
    let mut out: Vec<Vec<Value>> = Vec::new();
    let mut g: usize = 0;
    while g < groups.len()
        invariant
            g <= groups.len(),
            out@.len() == g,
            gv == rows_view(groups@),
            forall|m: int| 0 <= m < groups@.len() ==> #[trigger] groups@[m]@.len() == cols@.len(),
            rows@ == s.mappings.rows@,
            cv == cols@.map_values(|c: usize| c as int),
            av == aggs_view(aggs@),
            forall|m: int| 0 <= m < cols@.len() ==> #[trigger] cols@[m] < n,
            n == sv.names.len(),
            sv == s@,
            forall|j: int| 0 <= j < rows@.len() ==> #[trigger] rows@[j]@.len() == n,
            forall|m: int| 0 <= m < g ==> row_view((#[trigger] out@[m])@) == gv[m] + av.map_values(|a: (Seq<char>, Aggregate)|
                aggregate_value(a.1, sv.names, sv.types, group_members(sv.rows, cv, gv[m]))),
            forall|m: int| 0 <= m < g ==> (#[trigger] out@[m])@.len() == cols@.len() + aggs@.len(),
        decreases groups.len() - g,
    {
        let key = &groups[g];
        let members = group_members_exec(rows, &cols, key, Ghost(n));
        let mut row = copy_row(key);
        let ghost krow = row@;
        let mut a: usize = 0;
        while a < aggs.len()
            invariant
                a <= aggs.len(),
                row@.len() == krow.len() + a,
                forall|m: int| 0 <= m < krow.len() ==> (#[trigger] row@[m]) == krow[m],
                forall|m: int| 0 <= m < a ==> (#[trigger] row@[krow.len() + m])@ == aggregate_value(aggs@[m].1, sv.names, sv.types, rows_view(members@)),
                forall|i: int| 0 <= i < members@.len() ==> #[trigger] members@[i]@.len() == n,
                n == sv.names.len(),
                sv == s@,
            decreases aggs.len() - a,
        {
            let v = aggregate_exec(&aggs[a].1, &s.mappings.names, &s.rdf_node_types, &members);
            row.push(v);
            proof {
                assert(row@[krow.len() + a as int] == v);
            }
            a += 1;
        }
        proof {
            let expect = gv[g as int] + av.map_values(|x: (Seq<char>, Aggregate)| aggregate_value(x.1, sv.names, sv.types, group_members(sv.rows, cv, gv[g as int])));
            assert(row_view(krow) == gv[g as int]);
            assert(rows_view(rows@) == sv.rows);
            assert(row_view(key@) == gv[g as int]);
            assert forall|m: int| 0 <= m < row@.len() implies #[trigger] row_view(row@)[m] == expect[m] by {
                if m < krow.len() {
                    assert(row@[m] == krow[m]);
                    assert(row_view(krow)[m] == krow[m]@);
                } else {
                    assert(row@[krow.len() + (m - krow.len())]@ == aggregate_value(aggs@[m - krow.len()].1, sv.names, sv.types, rows_view(members@)));
                }
            }
            assert(row_view(row@) =~= expect);
        }
        out.push(row);
        g += 1;
    }
    let mut names = copy_strings(keys);
    let ghost kn = names@;
    let mut a: usize = 0;
    while a < aggs.len()
        invariant
            a <= aggs.len(),
            names@.len() == kn.len() + a,
            forall|m: int| 0 <= m < kn.len() ==> (#[trigger] names@[m]) == kn[m],
            forall|m: int| 0 <= m < a ==> (#[trigger] names@[kn.len() + m])@ == aggs@[m].0@,
        decreases aggs.len() - a,
    {
        names.push(aggs[a].0.clone());
        proof {
            assert(names@[kn.len() + a as int]@ == aggs@[a as int].0@);
        }
        a += 1;
    }
    let mut types = filter_types(&s.rdf_node_types, keys);
    let ghost t0 = types_view(types@);
    let mut b: usize = 0;
    while b < aggs.len()
        invariant
            b <= aggs.len(),
            types@.len() == t0.len() + b,
            forall|m: int| 0 <= m < t0.len() ==> types_view(types@)[m] == t0[m],
            forall|m: int| 0 <= m < b ==> types_view(types@)[t0.len() + m] == (aggs@[m].0@, aggregate_type(aggs@[m].1, types_view(s.rdf_node_types@))),
        decreases aggs.len() - b,
    {
        let t = aggregate_type_exec(&aggs[b].1, &s.rdf_node_types);
        let ghost before = types@;
        types.push((aggs[b].0.clone(), t));
        proof {
            assert forall|m: int| 0 <= m < t0.len() implies types_view(types@)[m] == t0[m] by {
                assert(types@[m] == before[m]);
            }
            assert forall|m: int| 0 <= m < b + 1 implies types_view(types@)[t0.len() + m] == (aggs@[m].0@, aggregate_type(aggs@[m].1, types_view(s.rdf_node_types@))) by {
                if m < b {
                    assert(types@[t0.len() + m] == before[t0.len() + m]);
                }
            }
        }
        b += 1;
    }
    let o = SolutionMappings { mappings: Batch { names, rows: out }, rdf_node_types: types };
    proof {
        let expect_names = names_view(keys@) + av.map_values(|x: (Seq<char>, Aggregate)| x.0);
        assert forall|m: int| 0 <= m < o.mappings.names@.len() implies #[trigger] names_view(o.mappings.names@)[m] == expect_names[m] by {
            if m < kn.len() {
                assert(o.mappings.names@[m] == kn[m]);
                assert(kn[m]@ == names_view(keys@)[m]);
            } else {
                assert(o.mappings.names@[kn.len() + (m - kn.len())]@ == aggs@[m - kn.len()].0@);
            }
        }
        assert(names_view(o.mappings.names@) =~= expect_names);
        let expect_rows = gv.map_values(|gr: Seq<ValueV>| gr + av.map_values(|x: (Seq<char>, Aggregate)|
            aggregate_value(x.1, sv.names, sv.types, group_members(sv.rows, cv, gr))));
        assert(rows_view(o.mappings.rows@) =~= expect_rows);
        let expect_types = t0 + av.map_values(|x: (Seq<char>, Aggregate)| (x.0, aggregate_type(x.1, sv.types)));
        assert(types_view(o.rdf_node_types@) =~= expect_types);
        assert(!(exists|k: int| 0 <= k < keys@.len() && index_of(sv.names, #[trigger] names_view(keys@)[k]) < 0));
        lemma_rows_view_width(o.mappings.rows@, cols@.len() + aggs@.len());
        assert(names_view(o.mappings.names@).len() == cols@.len() + aggs@.len());
    }
    Ok(o)
}

} // verus!
