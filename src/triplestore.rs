//! The triple store: triples bucketed by (predicate, object type), with
//! per-bucket uniqueness tracking and lazy deduplication.
use vstd::prelude::*;
use crate::value::{Scalar, ScalarV, Value, ValueV, row_view, rows_view, copy_row};
use crate::model::{RDFNodeType, NodeTypeV, opt_str_view, xsd_string_iri};
use crate::batch::{
    Batch, lemma_rows_view_push, drop_nulls, unique_first, drop_null_rows, unique_rows,
    lemma_unique_first,
};

verus! {

/// Triples of one leaf emission, ready to be bucketed: rows of
/// `subject, object`, and `verb` when no static predicate is given.
pub struct TriplesToAdd {
    pub df: Batch,
    pub object_type: RDFNodeType,
    pub language_tag: Option<String>,
    pub static_verb_column: Option<String>,
    pub has_unique_subset: bool,
}

pub struct TriplesToAddV {
    pub rows: Seq<Seq<ValueV>>,
    pub object_type: NodeTypeV,
    pub language_tag: Option<Seq<char>>,
    pub static_verb_column: Option<Seq<char>>,
    pub has_unique_subset: bool,
}

impl View for TriplesToAdd {
    type V = TriplesToAddV;

    open spec fn view(&self) -> TriplesToAddV {
        TriplesToAddV {
            rows: self.df@.rows,
            object_type: self.object_type@,
            language_tag: opt_str_view(self.language_tag),
            static_verb_column: opt_str_view(self.static_verb_column),
            has_unique_subset: self.has_unique_subset,
        }
    }
}

pub open spec fn to_add_view(ts: Seq<TriplesToAdd>) -> Seq<TriplesToAddV> {
    ts.map_values(|t: TriplesToAdd| t@)
}

impl TriplesToAdd {
    /// Every row has the subject and object cells, and the verb cell where
    /// no static predicate is given.
    pub open spec fn well_shaped(&self) -> bool {
        forall|i: int| 0 <= i < self.df.rows@.len() ==>
            (if self.static_verb_column is Some { 2nat } else { 3nat }) <= #[trigger] self.df.rows@[i]@.len()
    }
}

/// Triples of one bucket key, ready to be absorbed.
pub struct TripleDF {
    pub rows: Vec<Vec<Value>>,
    pub predicate: String,
    pub object_type: RDFNodeType,
}

pub struct TripleDFV {
    pub rows: Seq<Seq<ValueV>>,
    pub predicate: Seq<char>,
    pub object_type: NodeTypeV,
}

impl View for TripleDF {
    type V = TripleDFV;

    open spec fn view(&self) -> TripleDFV {
        TripleDFV { rows: rows_view(self.rows@), predicate: self.predicate@, object_type: self.object_type@ }
    }
}

pub open spec fn tdfs_view(v: Seq<TripleDF>) -> Seq<TripleDFV> {
    v.map_values(|t: TripleDF| t@)
}

/// The subject and object cells of each row.
pub open spec fn project_so(rows: Seq<Seq<ValueV>>) -> Seq<Seq<ValueV>> {
    rows.map_values(|r: Seq<ValueV>| seq![r[0], r[1]])
}

/// Each row with a language-tag cell appended.
pub open spec fn with_tag(rows: Seq<Seq<ValueV>>, tag: ValueV) -> Seq<Seq<ValueV>> {
    rows.map_values(|r: Seq<ValueV>| r.push(tag))
}

pub open spec fn tag_cell(lang: Option<Seq<char>>) -> ValueV {
    match lang {
        Some(t) => ValueV::Item(ScalarV::Text(t)),
        None => ValueV::Null,
    }
}

/// The rows that one predicate contributes: nulls dropped, duplicates
/// dropped unless a unique subset vouches for the rows, a language-tag
/// column for plain strings; nothing when no row is left.
pub open spec fn prepared_rows(rows: Seq<Seq<ValueV>>, object_type: NodeTypeV, lang: Option<Seq<char>>, has_unique_subset: bool) -> Seq<Seq<ValueV>> {
    let a = drop_nulls(rows);
    let b = if has_unique_subset { a } else { unique_first(a) };
    if object_type == NodeTypeV::Literal(xsd_string_iri()) {
        with_tag(b, tag_cell(lang))
    } else {
        b
    }
}

pub open spec fn prepare_df_spec(rows: Seq<Seq<ValueV>>, predicate: Seq<char>, object_type: NodeTypeV, lang: Option<Seq<char>>, has_unique_subset: bool) -> Seq<TripleDFV> {
    if drop_nulls(rows).len() == 0 {
        seq![]
    } else {
        seq![TripleDFV { rows: prepared_rows(rows, object_type, lang, has_unique_subset), predicate, object_type }]
    }
}

/// The predicate that a verb cell names, if it holds an IRI or a text.
pub open spec fn verb_name(v: ValueV) -> Option<Seq<char>> {
    match v {
        ValueV::Item(ScalarV::Iri(s)) => Some(s),
        ValueV::Item(ScalarV::Text(s)) => Some(s),
        _ => None,
    }
}

/// The distinct predicates named in the verb column, in order of first appearance.
pub open spec fn verbs_of(rows: Seq<Seq<ValueV>>) -> Seq<Seq<char>>
    decreases rows.len(),
{
    if rows.len() == 0 {
        seq![]
    } else {
        let p = verbs_of(rows.drop_last());
        match verb_name(rows.last()[2]) {
            Some(v) => if p.contains(v) { p } else { p.push(v) },
            None => p,
        }
    }
}

/// The rows whose verb cell names `v`.
pub open spec fn rows_with_verb(rows: Seq<Seq<ValueV>>, v: Seq<char>) -> Seq<Seq<ValueV>>
    decreases rows.len(),
{
    if rows.len() == 0 {
        seq![]
    } else if verb_name(rows.last()[2]) == Some(v) {
        rows_with_verb(rows.drop_last(), v).push(rows.last())
    } else {
        rows_with_verb(rows.drop_last(), v)
    }
}

/// The bucket-ready triple sets of a verb-partitioned batch, for the verbs `vs`.
pub open spec fn partitions_spec(rows: Seq<Seq<ValueV>>, vs: Seq<Seq<char>>, object_type: NodeTypeV, lang: Option<Seq<char>>, has_unique_subset: bool) -> Seq<TripleDFV>
    decreases vs.len(),
{
    if vs.len() == 0 {
        seq![]
    } else {
        partitions_spec(rows, vs.drop_last(), object_type, lang, has_unique_subset)
            + prepare_df_spec(project_so(rows_with_verb(rows, vs.last())), vs.last(), object_type, lang, has_unique_subset)
    }
}

/// What `prepare_triples` makes of a batch.
pub open spec fn prepare_spec(rows: Seq<Seq<ValueV>>, object_type: NodeTypeV, lang: Option<Seq<char>>, static_verb: Option<Seq<char>>, has_unique_subset: bool) -> Seq<TripleDFV> {
    if rows.len() == 0 {
        seq![]
    } else {
        match static_verb {
            Some(p) => prepare_df_spec(project_so(rows), p, object_type, lang, has_unique_subset),
            None => partitions_spec(rows, verbs_of(rows), object_type, lang, has_unique_subset),
        }
    }
}

fn project_subject_object(rows: &Vec<Vec<Value>>) -> (out: Vec<Vec<Value>>)
    requires
        forall|i: int| 0 <= i < rows@.len() ==> 2 <= #[trigger] rows@[i]@.len(),
    ensures
        rows_view(out@) == project_so(rows_view(rows@)),
{
    let mut out: Vec<Vec<Value>> = Vec::new();
    let mut i: usize = 0;
    while i < rows.len()
        invariant
            i <= rows.len(),
            out.len() == i,
            forall|i: int| 0 <= i < rows@.len() ==> 2 <= #[trigger] rows@[i]@.len(),
            forall|k: int| 0 <= k < i ==> row_view((#[trigger] out@[k])@) == seq![rows@[k]@[0]@, rows@[k]@[1]@],
        decreases rows.len() - i,
    {
        let mut r: Vec<Value> = Vec::new();
        r.push(rows[i][0].copy());
        r.push(rows[i][1].copy());
        proof {
            assert(row_view(r@) =~= seq![rows@[i as int]@[0]@, rows@[i as int]@[1]@]);
        }
        out.push(r);
        i += 1;
    }
    proof {
        assert forall|k: int| 0 <= k < out@.len() implies #[trigger] rows_view(out@)[k] == project_so(rows_view(rows@))[k] by {
            assert(rows_view(rows@)[k] == row_view(rows@[k]@));
        }
        assert(rows_view(out@) =~= project_so(rows_view(rows@)));
    }
    out
}

fn tag_value(lang: &Option<String>) -> (v: Value)
    ensures
        v@ == tag_cell(opt_str_view(*lang)),
{
    match lang {
        Some(t) => Value::Item(Scalar::Text(t.clone())),
        None => Value::Null,
    }
}

fn append_tag(rows: Vec<Vec<Value>>, lang: &Option<String>) -> (out: Vec<Vec<Value>>)
    ensures
        rows_view(out@) == with_tag(rows_view(rows@), tag_cell(opt_str_view(*lang))),
{
    let ghost tag = tag_cell(opt_str_view(*lang));
    let mut out: Vec<Vec<Value>> = Vec::new();
    let mut i: usize = 0;
    while i < rows.len()
        invariant
            i <= rows.len(),
            out.len() == i,
            tag == tag_cell(opt_str_view(*lang)),
            forall|k: int| 0 <= k < i ==> row_view((#[trigger] out@[k])@) == row_view(rows@[k]@).push(tag),
        decreases rows.len() - i,
    {
        let mut r = copy_row(&rows[i]);
        let t = tag_value(lang);
        r.push(t);
        proof {
            assert(row_view(r@) =~= row_view(rows@[i as int]@).push(tag));
        }
        out.push(r);
        i += 1;
    }
    proof {
        assert(rows_view(out@) =~= with_tag(rows_view(rows@), tag));
    }
    out
}

/// Prepares the triples of one predicate for absorption.
pub fn prepare_triples_df(rows: Vec<Vec<Value>>, predicate: String, object_type: &RDFNodeType, language_tag: &Option<String>, has_unique_subset: bool) -> (r: Option<TripleDF>)
    ensures
        (match r {
            Some(t) => seq![t@],
            None => Seq::<TripleDFV>::empty(),
        }) == prepare_df_spec(rows_view(rows@), predicate@, object_type@, opt_str_view(*language_tag), has_unique_subset),
{
    let a = drop_null_rows(rows);
    if a.len() == 0 {
        return None;
    }
    let b = if has_unique_subset { a } else { unique_rows(a) };
    let c = if object_type.is_string() { append_tag(b, language_tag) } else { b };
    Some(TripleDF { rows: c, predicate, object_type: object_type.copy() })
}

fn verb_name_of(v: &Value) -> (r: Option<String>)
    ensures
        opt_str_view(r) == verb_name(v@),
{
    match v {
        Value::Item(Scalar::Iri(s)) => Some(s.clone()),
        Value::Item(Scalar::Text(s)) => Some(s.clone()),
        _ => None,
    }
}

pub fn contains_string(v: &Vec<String>, s: &String) -> (b: bool)
    ensures
        b == v@.map_values(|x: String| x@).contains(s@),
{
    let mut i: usize = 0;
    while i < v.len()
        invariant
            i <= v.len(),
            forall|k: int| 0 <= k < i ==> v@[k]@ != s@,
        decreases v.len() - i,
    {
        if v[i].eq(s) {
            proof {
                assert(v@.map_values(|x: String| x@)[i as int] == s@);
            }
            return true;
        }
        i += 1;
    }
    false
}

fn distinct_verbs(rows: &Vec<Vec<Value>>) -> (vs: Vec<String>)
    requires
        forall|i: int| 0 <= i < rows@.len() ==> 3 <= #[trigger] rows@[i]@.len(),
    ensures
        vs@.map_values(|x: String| x@) == verbs_of(rows_view(rows@)),
{
    let ghost rv = rows_view(rows@);
    let mut vs: Vec<String> = Vec::new();
    let mut i: usize = 0;
    while i < rows.len()
        invariant
            i <= rows.len(),
            rv == rows_view(rows@),
            forall|i: int| 0 <= i < rows@.len() ==> 3 <= #[trigger] rows@[i]@.len(),
            vs@.map_values(|x: String| x@) == verbs_of(rv.take(i as int)),
        decreases rows.len() - i,
    {
        proof {
            assert(rv.take(i as int + 1).drop_last() =~= rv.take(i as int));
            assert(rv.take(i as int + 1).last() == row_view(rows@[i as int]@));
            assert(row_view(rows@[i as int]@)[2] == rows@[i as int]@[2]@);
        }
        match verb_name_of(&rows[i][2]) {
            Some(v) => {
                if !contains_string(&vs, &v) {
                    let ghost old_vs = vs@;
                    vs.push(v);
                    proof {
                        assert(vs@.map_values(|x: String| x@) =~= old_vs.map_values(|x: String| x@).push(v@));
                    }
                }
            },
            None => {},
        }
        i += 1;
    }
    proof {
        assert(rv.take(i as int) =~= rv);
    }
    vs
}

fn select_verb(rows: &Vec<Vec<Value>>, v: &String) -> (out: Vec<Vec<Value>>)
    requires
        forall|i: int| 0 <= i < rows@.len() ==> 3 <= #[trigger] rows@[i]@.len(),
    ensures
        rows_view(out@) == rows_with_verb(rows_view(rows@), v@),
        forall|i: int| 0 <= i < out@.len() ==> 3 <= #[trigger] out@[i]@.len(),
{
    let ghost rv = rows_view(rows@);
    let mut out: Vec<Vec<Value>> = Vec::new();
    let mut i: usize = 0;
    while i < rows.len()
        invariant
            i <= rows.len(),
            rv == rows_view(rows@),
            forall|i: int| 0 <= i < rows@.len() ==> 3 <= #[trigger] rows@[i]@.len(),
            rows_view(out@) == rows_with_verb(rv.take(i as int), v@),
            forall|i: int| 0 <= i < out@.len() ==> 3 <= #[trigger] out@[i]@.len(),
        decreases rows.len() - i,
    {
        proof {
            assert(rv.take(i as int + 1).drop_last() =~= rv.take(i as int));
            assert(rv.take(i as int + 1).last() == row_view(rows@[i as int]@));
            assert(row_view(rows@[i as int]@)[2] == rows@[i as int]@[2]@);
        }
        let name = verb_name_of(&rows[i][2]);
        let hit = match &name {
            Some(n) => n.eq(v),
            None => false,
        };
        if hit {
            let r = copy_row(&rows[i]);
            proof {
                lemma_rows_view_push(out@, r);
            }
            out.push(r);
        }
        i += 1;
    }
    proof {
        assert(rv.take(i as int) =~= rv);
    }
    out
}

/// Splits a leaf's triples by predicate and prepares each part for its bucket.
pub fn prepare_triples(df: Batch, object_type: &RDFNodeType, language_tag: &Option<String>, static_verb_column: Option<String>, has_unique_subset: bool) -> (r: Vec<TripleDF>)
    requires
        forall|i: int| 0 <= i < df.rows@.len() ==>
            (if static_verb_column is Some { 2nat } else { 3nat }) <= #[trigger] df.rows@[i]@.len(),
    ensures
        tdfs_view(r@) == prepare_spec(df@.rows, object_type@, opt_str_view(*language_tag), opt_str_view(static_verb_column), has_unique_subset),
{
    let mut out: Vec<TripleDF> = Vec::new();
    if df.rows.len() == 0 {
        proof {
            assert(tdfs_view(out@) =~= Seq::<TripleDFV>::empty());
        }
        return out;
    }
    match static_verb_column {
        Some(p) => {
            let so = project_subject_object(&df.rows);
            let t = prepare_triples_df(so, p, object_type, language_tag, has_unique_subset);
            match t {
                Some(t) => {
                    out.push(t);
                },
                None => {},
            }
            proof {
                assert(tdfs_view(out@) =~= prepare_spec(df@.rows, object_type@, opt_str_view(*language_tag), opt_str_view(static_verb_column), has_unique_subset));
            }
            out
        },
        None => {
            let vs = distinct_verbs(&df.rows);
            let ghost vsv = vs@.map_values(|x: String| x@);
            let mut j: usize = 0;
            while j < vs.len()
                invariant
                    j <= vs.len(),
                    vsv == vs@.map_values(|x: String| x@),
                    forall|i: int| 0 <= i < df.rows@.len() ==> 3 <= #[trigger] df.rows@[i]@.len(),
                    tdfs_view(out@) == partitions_spec(df@.rows, vsv.take(j as int), object_type@, opt_str_view(*language_tag), has_unique_subset),
                decreases vs.len() - j,
            {
                let part = select_verb(&df.rows, &vs[j]);
                let so = project_subject_object(&part);
                let t = prepare_triples_df(so, vs[j].clone(), object_type, language_tag, has_unique_subset);
                let ghost before = out@;
                match t {
                    Some(t) => {
                        out.push(t);
                    },
                    None => {},
                }
                proof {
                    assert(vsv.take(j as int + 1).drop_last() =~= vsv.take(j as int));
                    assert(vsv.take(j as int + 1).last() == vs@[j as int]@);
                    assert(tdfs_view(out@) =~= tdfs_view(before) + prepare_df_spec(project_so(rows_with_verb(df@.rows, vs@[j as int]@)), vs@[j as int]@, object_type@, opt_str_view(*language_tag), has_unique_subset));
                }
                j += 1;
            }
            proof {
                assert(vsv.take(j as int) =~= vsv);
            }
            out
        },
    }
}

/// Where a bucket's triples live: in memory as a list of row batches, or on
/// disk as a list of file paths. Never both.
pub enum TableStorage {
    InMemory(Vec<Vec<Vec<Value>>>),
    Spilled(Vec<String>),
}

pub enum StorageV {
    InMemory(Seq<Seq<Seq<ValueV>>>),
    Spilled(Seq<Seq<char>>),
}

pub open spec fn batches_view(bs: Seq<Vec<Vec<Value>>>) -> Seq<Seq<Seq<ValueV>>> {
    bs.map_values(|b: Vec<Vec<Value>>| rows_view(b@))
}

impl View for TableStorage {
    type V = StorageV;

    open spec fn view(&self) -> StorageV {
        match self {
            TableStorage::InMemory(bs) => StorageV::InMemory(batches_view(bs@)),
            TableStorage::Spilled(ps) => StorageV::Spilled(ps@.map_values(|p: String| p@)),
        }
    }
}

/// One bucket of the store, keyed by predicate and object type.
pub struct TripleTable {
    pub predicate: String,
    pub object_type: RDFNodeType,
    pub storage: TableStorage,
    pub unique: bool,
    pub call_uuid: String,
}

pub struct TableV {
    pub predicate: Seq<char>,
    pub object_type: NodeTypeV,
    pub storage: StorageV,
    pub unique: bool,
    pub call_uuid: Seq<char>,
}

impl View for TripleTable {
    type V = TableV;

    open spec fn view(&self) -> TableV {
        TableV {
            predicate: self.predicate@,
            object_type: self.object_type@,
            storage: self.storage@,
            unique: self.unique,
            call_uuid: self.call_uuid@,
        }
    }
}

/// The rows of a list of batches, one batch after the other.
pub open spec fn concat_batches(bs: Seq<Seq<Seq<ValueV>>>) -> Seq<Seq<ValueV>>
    decreases bs.len(),
{
    if bs.len() == 0 {
        seq![]
    } else {
        concat_batches(bs.drop_last()) + bs.last()
    }
}

/// The rows held in memory by a bucket.
pub open spec fn table_rows(t: TableV) -> Seq<Seq<ValueV>> {
    match t.storage {
        StorageV::InMemory(bs) => concat_batches(bs),
        StorageV::Spilled(_) => seq![],
    }
}

pub open spec fn is_key(t: TableV, p: Seq<char>, ot: NodeTypeV) -> bool {
    t.predicate == p && t.object_type == ot
}

/// The index of the bucket for `(p, ot)`, or -1.
pub open spec fn find_table(ts: Seq<TableV>, p: Seq<char>, ot: NodeTypeV) -> int
    decreases ts.len(),
{
    if ts.len() == 0 {
        -1
    } else if is_key(ts.last(), p, ot) {
        ts.len() - 1
    } else {
        find_table(ts.drop_last(), p, ot)
    }
}

/// The buckets after one batch of rows is appended under `(p, ot)` by call `uuid`.
pub open spec fn add_rows_spec(ts: Seq<TableV>, p: Seq<char>, ot: NodeTypeV, rows: Seq<Seq<ValueV>>, uuid: Seq<char>) -> Seq<TableV> {
    let i = find_table(ts, p, ot);
    if i >= 0 {
        let t = ts[i];
        let storage = match t.storage {
            StorageV::InMemory(bs) => StorageV::InMemory(bs.push(rows)),
            StorageV::Spilled(ps) => StorageV::Spilled(ps),
        };
        ts.update(i, TableV { storage, unique: t.unique && t.call_uuid == uuid, ..t })
    } else {
        ts.push(TableV { predicate: p, object_type: ot, storage: StorageV::InMemory(seq![rows]), unique: true, call_uuid: uuid })
    }
}

/// The buckets after one spill file is recorded under `(p, ot)` by call `uuid`.
pub open spec fn add_path_spec(ts: Seq<TableV>, p: Seq<char>, ot: NodeTypeV, path: Seq<char>, uuid: Seq<char>) -> Seq<TableV> {
    let i = find_table(ts, p, ot);
    if i >= 0 {
        let t = ts[i];
        let storage = match t.storage {
            StorageV::InMemory(bs) => StorageV::InMemory(bs),
            StorageV::Spilled(ps) => StorageV::Spilled(ps.push(path)),
        };
        ts.update(i, TableV { storage, unique: t.unique && t.call_uuid == uuid, ..t })
    } else {
        ts.push(TableV { predicate: p, object_type: ot, storage: StorageV::Spilled(seq![path]), unique: true, call_uuid: uuid })
    }
}

/// The buckets after each of `tdfs` is appended in turn.
pub open spec fn add_all_spec(ts: Seq<TableV>, tdfs: Seq<TripleDFV>, uuid: Seq<char>) -> Seq<TableV>
    decreases tdfs.len(),
{
    if tdfs.len() == 0 {
        ts
    } else {
        let prev = add_all_spec(ts, tdfs.drop_last(), uuid);
        add_rows_spec(prev, tdfs.last().predicate, tdfs.last().object_type, tdfs.last().rows, uuid)
    }
}

/// The prepared triples of a sequence of leaf emissions, in order.
pub open spec fn prepare_all_spec(ts: Seq<TriplesToAddV>) -> Seq<TripleDFV>
    decreases ts.len(),
{
    if ts.len() == 0 {
        seq![]
    } else {
        let t = ts.last();
        prepare_all_spec(ts.drop_last()) + prepare_spec(t.rows, t.object_type, t.language_tag, t.static_verb_column, t.has_unique_subset)
    }
}

/// A bucket whose duplicate rows have been removed.
pub open spec fn dedup_table(t: TableV) -> TableV {
    match t.storage {
        StorageV::InMemory(bs) => if t.unique {
            t
        } else {
            TableV { storage: StorageV::InMemory(seq![unique_first(concat_batches(bs))]), unique: true, ..t }
        },
        StorageV::Spilled(_) => t,
    }
}

pub struct StoreV {
    pub deduplicated: bool,
    pub caching_folder: Option<Seq<char>>,
    pub tables: Seq<TableV>,
}

impl StoreV {
    pub open spec fn wf(self) -> bool {
        &&& forall|i: int, j: int| 0 <= i < self.tables.len() && 0 <= j < self.tables.len() && i != j ==>
            !is_key(#[trigger] self.tables[i], self.tables[j].predicate, #[trigger] self.tables[j].object_type)
        &&& forall|i: int| 0 <= i < self.tables.len() ==> single_representation(#[trigger] self.tables[i], self.caching_folder is Some)
        &&& self.deduplicated <==> (forall|i: int| 0 <= i < self.tables.len() ==> (#[trigger] self.tables[i]).unique)
    }
}

/// Every bucket of the store is held in exactly one way, fixed by whether
/// the store spills.
pub open spec fn all_single_representation(s: StoreV) -> bool {
    forall|i: int| 0 <= i < s.tables.len() ==> single_representation(#[trigger] s.tables[i], s.caching_folder is Some)
}

/// A bucket holds a non-empty list of spill files when the store spills, and
/// a non-empty list of in-memory batches when it does not.
pub open spec fn single_representation(t: TableV, spills: bool) -> bool {
    match t.storage {
        StorageV::InMemory(bs) => !spills && bs.len() > 0,
        StorageV::Spilled(ps) => spills && ps.len() > 0,
    }
}

/// The columnar triple store.
pub struct Triplestore {
    deduplicated: bool,
    caching_folder: Option<String>,
    df_map: Vec<TripleTable>,
}

impl View for Triplestore {
    type V = StoreV;

    closed spec fn view(&self) -> StoreV {
        StoreV {
            deduplicated: self.deduplicated,
            caching_folder: opt_str_view(self.caching_folder),
            tables: self.df_map@.map_values(|t: TripleTable| t@),
        }
    }
}

/// The character a file name keeps for `c`.
pub open spec fn filename_char(c: char) -> char {
    if ('a' <= c && c <= 'z') || ('A' <= c && c <= 'Z') || ('0' <= c && c <= '9') || c == '_' || c == '-' {
        c
    } else {
        '_'
    }
}

/// A predicate IRI with every character outside `[A-Za-z0-9_-]` replaced by `_`.
pub open spec fn sanitized(p: Seq<char>) -> Seq<char> {
    p.map_values(|c: char| filename_char(c))
}

/// Turns a predicate IRI into a string that is safe in a file name.
pub fn property_to_filename(p: &String) -> (r: String)
    ensures
        r@ == sanitized(p@),
{
    let s = p.as_str();
    let n = s.unicode_len();
    let mut r = String::new();
    let mut i: usize = 0;
    while i < n
        invariant
            i <= n,
            n == p@.len(),
            s@ == p@,
            r@ == sanitized(p@.take(i as int)),
        decreases n - i,
    {
        let c = s.get_char(i);
        let keep = ('a' <= c && c <= 'z') || ('A' <= c && c <= 'Z') || ('0' <= c && c <= '9') || c == '_' || c == '-';
        if keep {
            r.append(s.substring_char(i, i + 1));
        } else {
            let u = "_";
            proof {
                reveal_strlit("_");
            }
            r.append(u);
        }
        proof {
            assert(sanitized(p@.take(i as int + 1)) =~= sanitized(p@.take(i as int)).push(filename_char(c)));
        }
        i += 1;
    }
    proof {
        assert(p@.take(i as int) =~= p@);
    }
    r
}

/// The rows of a list of batches, one after the other.
pub fn concat_rows(bs: &Vec<Vec<Vec<Value>>>) -> (out: Vec<Vec<Value>>)
    ensures
        rows_view(out@) == concat_batches(batches_view(bs@)),
{
    let ghost bv = batches_view(bs@);
    let mut out: Vec<Vec<Value>> = Vec::new();
    let mut i: usize = 0;
    while i < bs.len()
        invariant
            i <= bs.len(),
            bv == batches_view(bs@),
            rows_view(out@) == concat_batches(bv.take(i as int)),
        decreases bs.len() - i,
    {
        let b = &bs[i];
        let ghost before = rows_view(out@);
        let mut j: usize = 0;
        while j < b.len()
            invariant
                j <= b.len(),
                rows_view(out@) == before + rows_view(b@).take(j as int),
            decreases b.len() - j,
        {
            let r = copy_row(&b[j]);
            proof {
                lemma_rows_view_push(out@, r);
                assert(rows_view(b@).take(j as int + 1) =~= rows_view(b@).take(j as int).push(row_view(r@)));
            }
            out.push(r);
            j += 1;
        }
        proof {
            assert(rows_view(b@).take(j as int) =~= rows_view(b@));
            assert(bv.take(i as int + 1).drop_last() =~= bv.take(i as int));
            assert(bv.take(i as int + 1).last() == rows_view(b@));
        }
        i += 1;
    }
    proof {
        assert(bv.take(i as int) =~= bv);
    }
    out
}

/// The deduplicated rows of a bucket's batches: the first occurrence of
/// each row of their concatenation.
pub fn dedup_batches(bs: &Vec<Vec<Vec<Value>>>) -> (out: Vec<Vec<Value>>)
    ensures
        rows_view(out@) == unique_first(concat_batches(batches_view(bs@))),
{
    let all = concat_rows(bs);
    unique_rows(all)
}

impl TripleTable {
    /// The number of batches, or of spill files, the bucket holds.
    pub fn len(&self) -> (r: usize)
        ensures
            r == match self@.storage {
                StorageV::InMemory(bs) => bs.len(),
                StorageV::Spilled(ps) => ps.len(),
            },
    {
        match &self.storage {
            TableStorage::InMemory(bs) => bs.len(),
            TableStorage::Spilled(ps) => ps.len(),
        }
    }

    /// A copy of the in-memory batch at `idx`; none for a spilled bucket
    /// or an index past the end.
    pub fn get_df(&self, idx: usize) -> (r: Option<Vec<Vec<Value>>>)
        ensures
            match self@.storage {
                StorageV::InMemory(bs) => if idx < bs.len() {
                    r matches Some(b) && rows_view(b@) == bs[idx as int]
                } else {
                    r is None
                },
                StorageV::Spilled(_) => r is None,
            },
    {
        match &self.storage {
            TableStorage::InMemory(bs) => {
                if idx < bs.len() {
                    let b = &bs[idx];
                    let mut out: Vec<Vec<Value>> = Vec::new();
                    let mut j: usize = 0;
                    while j < b.len()
                        invariant
                            j <= b.len(),
                            out@.len() == j,
                            forall|m: int| 0 <= m < j ==> row_view((#[trigger] out@[m])@) == row_view(b@[m]@),
                        decreases b.len() - j,
                    {
                        out.push(copy_row(&b[j]));
                        j += 1;
                    }
                    proof {
                        assert(rows_view(out@) =~= rows_view(b@));
                    }
                    Some(out)
                } else {
                    None
                }
            },
            TableStorage::Spilled(_) => None,
        }
    }
}


/// The name of a spill file: `{folder}/{sanitized predicate}_{id}.parquet`.
pub open spec fn spill_file_name_spec(folder: Seq<char>, predicate: Seq<char>, id: Seq<char>) -> Seq<char> {
    folder + "/"@ + sanitized(predicate) + "_"@ + id + ".parquet"@
}

/// The path of the spill file with identifier `id` for `predicate`.
pub fn spill_file_name(folder: &String, predicate: &String, id: &String) -> (r: String)
    ensures
        r@ == spill_file_name_spec(folder@, predicate@, id@),
{
    let mut r = folder.clone();
    r.append("/");
    let p = property_to_filename(predicate);
    r.append(p.as_str());
    r.append("_");
    r.append(id.as_str());
    r.append(".parquet");
    r
}

/// The indices of the spilled buckets that may hold duplicates, in order.
pub open spec fn spilled_to_rewrite_spec(ts: Seq<TableV>) -> Seq<int>
    decreases ts.len(),
{
    if ts.len() == 0 {
        seq![]
    } else {
        let p = spilled_to_rewrite_spec(ts.drop_last());
        if ts.last().storage is Spilled && !ts.last().unique { p.push(ts.len() - 1) } else { p }
    }
}

impl Triplestore {
    pub fn new(caching_folder: Option<String>) -> (r: Triplestore)
        ensures
            r@.wf(),
            r@.deduplicated,
            r@.caching_folder == opt_str_view(caching_folder),
            r@.tables.len() == 0,
    {
        Triplestore { deduplicated: true, caching_folder, df_map: Vec::new() }
    }

    pub fn is_deduplicated(&self) -> (r: bool)
        ensures
            r == self@.deduplicated,
    {
        self.deduplicated
    }

    pub fn caching_folder(&self) -> (r: &Option<String>)
        ensures
            opt_str_view(*r) == self@.caching_folder,
    {
        &self.caching_folder
    }

    pub fn tables(&self) -> (r: &Vec<TripleTable>)
        ensures
            r@.map_values(|t: TripleTable| t@) == self@.tables,
    {
        &self.df_map
    }

    fn find(&self, p: &String, ot: &RDFNodeType) -> (r: Option<usize>)
        ensures
            r matches Some(i) ==> i < self@.tables.len() && find_table(self@.tables, p@, ot@) == i,
            r is None ==> find_table(self@.tables, p@, ot@) == -1,
    {
        let ghost ts = self@.tables;
        let mut i: usize = self.df_map.len();
        proof {
            assert(ts.take(i as int) =~= ts);
        }
        while i > 0
            invariant
                i <= self.df_map.len(),
                ts == self@.tables,
                find_table(ts, p@, ot@) == find_table(ts.take(i as int), p@, ot@),
            decreases i,
        {
            let t = &self.df_map[i - 1];
            proof {
                assert(ts.take(i as int).drop_last() =~= ts.take(i as int - 1));
                assert(ts.take(i as int).last() == t@);
            }
            if t.predicate.eq(p) && t.object_type.same(ot) {
                return Some(i - 1);
            }
            i -= 1;
        }
        None
    }

    proof fn lemma_find_table(ts: Seq<TableV>, p: Seq<char>, ot: NodeTypeV)
        ensures
            -1 <= find_table(ts, p, ot) < ts.len(),
            find_table(ts, p, ot) >= 0 ==> is_key(ts[find_table(ts, p, ot)], p, ot),
            find_table(ts, p, ot) == -1 ==> forall|j: int| 0 <= j < ts.len() ==> !is_key(#[trigger] ts[j], p, ot),
        decreases ts.len(),
    {
        if ts.len() > 0 {
            Self::lemma_find_table(ts.drop_last(), p, ot);
            if find_table(ts, p, ot) == -1 {
                assert forall|j: int| 0 <= j < ts.len() implies !is_key(#[trigger] ts[j], p, ot) by {
                    if j < ts.len() - 1 {
                        assert(ts[j] == ts.drop_last()[j]);
                    }
                }
            }
        }
    }

    /// Appends one batch of rows to the bucket of its key (in memory).
    fn add_rows(&mut self, t: TripleDF, call_uuid: &String)
        requires
            old(self)@.wf(),
            old(self)@.caching_folder is None,
        ensures
            final(self)@.wf(),
            final(self)@.caching_folder == old(self)@.caching_folder,
            final(self)@.tables == add_rows_spec(old(self)@.tables, t@.predicate, t@.object_type, t@.rows, call_uuid@),
    {
        let ghost ts = self@.tables;
        proof {
            Self::lemma_find_table(ts, t@.predicate, t@.object_type);
        }
        let TripleDF { rows, predicate, object_type } = t;
        let ghost mut witness: int = -1;
        match self.find(&predicate, &object_type) {
            Some(i) => {
                let mut table = self.df_map.remove(i);
                proof {
                    assert(table@ == ts[i as int]);
                }
                let ghost tv = table@;
                match &mut table.storage {
                    TableStorage::InMemory(bs) => {
                        let ghost old_bs = bs@;
                        bs.push(rows);
                        proof {
                            assert(batches_view(bs@) =~= batches_view(old_bs).push(rows_view(rows@)));
                        }
                    },
                    TableStorage::Spilled(_) => {},
                }
                table.unique = table.unique && call_uuid.eq(&table.call_uuid);
                if !table.unique {
                    self.deduplicated = false;
                    proof {
                        witness = i as int;
                    }
                }
                self.df_map.insert(i, table);
                proof {
                    assert(self@.tables =~= add_rows_spec(ts, t@.predicate, t@.object_type, t@.rows, call_uuid@));
                }
            },
            None => {
                let mut bs: Vec<Vec<Vec<Value>>> = Vec::new();
                bs.push(rows);
                let table = TripleTable {
                    predicate,
                    object_type,
                    storage: TableStorage::InMemory(bs),
                    unique: true,
                    call_uuid: call_uuid.clone(),
                };
                proof {
                    assert(batches_view(bs@) =~= seq![rows_view(rows@)]);
                }
                self.df_map.push(table);
                proof {
                    assert(self@.tables =~= add_rows_spec(ts, t@.predicate, t@.object_type, t@.rows, call_uuid@));
                }
            },
        }
        proof {
            let nts = self@.tables;
            let spills = self@.caching_folder is Some;
            assert forall|i: int| 0 <= i < nts.len() implies single_representation(#[trigger] nts[i], spills) by {
                if i < ts.len() {
                    assert(single_representation(ts[i], spills));
                }
            }
            if !old(self)@.deduplicated {
                let j = choose|j: int| 0 <= j < ts.len() && !(#[trigger] ts[j]).unique;
                assert(!nts[j].unique);
            } else if !self@.deduplicated {
                assert(!nts[witness].unique);
            }
            if self@.deduplicated {
                assert forall|i: int| 0 <= i < nts.len() implies (#[trigger] nts[i]).unique by {
                    if i < ts.len() {
                        assert(ts[i].unique);
                    }
                }
            }
            assert forall|i: int, j: int| 0 <= i < nts.len() && 0 <= j < nts.len() && i != j implies
                !is_key(#[trigger] nts[i], nts[j].predicate, #[trigger] nts[j].object_type) by {
                if i < ts.len() && j < ts.len() {
                    assert(is_key(nts[i], ts[i].predicate, ts[i].object_type));
                    assert(is_key(nts[j], ts[j].predicate, ts[j].object_type));
                }
            }
            assert(forall|i: int| 0 <= i < nts.len() ==> single_representation(#[trigger] nts[i], spills));
            assert(self@.deduplicated <==> (forall|i: int| 0 <= i < nts.len() ==> (#[trigger] nts[i]).unique));
        }
    }

    /// Absorbs prepared triples into their buckets (in memory), in order.
    pub fn add_triples_df(&mut self, triples_df: Vec<TripleDF>, call_uuid: &String)
        requires
            old(self)@.wf(),
            old(self)@.caching_folder is None,
        ensures
            final(self)@.wf(),
            final(self)@.caching_folder == old(self)@.caching_folder,
            final(self)@.tables == add_all_spec(old(self)@.tables, tdfs_view(triples_df@), call_uuid@),
    {
        let ghost ts0 = self@.tables;
        let ghost orig = triples_df@;
        let ghost tv = tdfs_view(triples_df@);
        let total = triples_df.len();
        let mut tdfs = triples_df;
        let mut k: usize = 0;
        while tdfs.len() > 0
            invariant
                self@.wf(),
                self@.caching_folder is None,
                self@.caching_folder == old(self)@.caching_folder,
                ts0 == old(self)@.tables,
                tv == tdfs_view(orig),
                k <= orig.len(),
                tdfs@ == orig.skip(k as int),
                tdfs.len() == orig.len() - k,
                orig.len() == total,
                self@.tables == add_all_spec(ts0, tv.take(k as int), call_uuid@),
            decreases tdfs.len(),
        {
            let t = tdfs.remove(0);
            proof {
                assert(t == orig[k as int]);
                assert(tv.take(k as int + 1).drop_last() =~= tv.take(k as int));
                assert(tv.take(k as int + 1).last() == t@);
            }
            self.add_rows(t, call_uuid);
            k += 1;
            proof {
                assert(tdfs@ =~= orig.skip(k as int));
            }
        }
        proof {
            assert(tv.take(k as int) =~= tv);
        }
    }

    /// Prepares the triples of each leaf emission and absorbs them. In
    /// memory they go straight into their buckets and nothing is returned;
    /// when the store spills, the buckets are left as they are and the
    /// prepared triples are returned, to be written to spill files and
    /// recorded with `add_spilled_file`.
    pub fn add_triples_vec(&mut self, ts: Vec<TriplesToAdd>, call_uuid: &String) -> (pending: Vec<TripleDF>)
        requires
            old(self)@.wf(),
            forall|i: int| 0 <= i < ts@.len() ==> (#[trigger] ts@[i]).well_shaped(),
        ensures
            final(self)@.wf(),
            final(self)@.caching_folder == old(self)@.caching_folder,
            old(self)@.caching_folder is None ==> final(self)@.tables == add_all_spec(old(self)@.tables, prepare_all_spec(to_add_view(ts@)), call_uuid@)
                && pending@.len() == 0,
            all_single_representation(final(self)@),
            old(self)@.caching_folder is Some ==> final(self)@ == old(self)@
                && tdfs_view(pending@) == prepare_all_spec(to_add_view(ts@)),
    {
        let ghost orig = ts@;
        let total = ts.len();
        let mut rest = ts;
        let mut prepared: Vec<TripleDF> = Vec::new();
        let mut k: usize = 0;
        while rest.len() > 0
            invariant
                k <= orig.len(),
                orig.len() == total,
                rest@ == orig.skip(k as int),
                rest.len() == orig.len() - k,
                forall|i: int| 0 <= i < orig.len() ==> (#[trigger] orig[i]).well_shaped(),
                tdfs_view(prepared@) == prepare_all_spec(to_add_view(orig.take(k as int))),
            decreases rest.len(),
        {
            let t = rest.remove(0);
            proof {
                assert(t == orig[k as int]);
                assert(to_add_view(orig.take(k as int + 1)).drop_last() =~= to_add_view(orig.take(k as int)));
                assert(to_add_view(orig.take(k as int + 1)).last() == t@);
            }
            let TriplesToAdd { df, object_type, language_tag, static_verb_column, has_unique_subset } = t;
            let mut part = prepare_triples(df, &object_type, &language_tag, static_verb_column, has_unique_subset);
            let ghost before = prepared@;
            let ghost pv = part@;
            prepared.append(&mut part);
            proof {
                assert(tdfs_view(prepared@) =~= tdfs_view(before) + tdfs_view(pv));
            }
            k += 1;
            proof {
                assert(rest@ =~= orig.skip(k as int));
            }
        }
        proof {
            assert(orig.take(k as int) =~= orig);
        }
        if self.caching_folder.is_none() {
            self.add_triples_df(prepared, call_uuid);
            Vec::new()
        } else {
            prepared
        }
    }

    /// Records a spill file that holds triples of `(predicate, object_type)`
    /// written by call `call_uuid`. Returns false, and changes nothing, when
    /// the store keeps its triples in memory.
    pub fn add_spilled_file(&mut self, path: String, predicate: &String, object_type: &RDFNodeType, call_uuid: &String) -> (r: bool)
        requires
            old(self)@.wf(),
        ensures
            final(self)@.wf(),
            r == (old(self)@.caching_folder is Some),
            final(self)@.caching_folder == old(self)@.caching_folder,
            r ==> final(self)@.tables == add_path_spec(old(self)@.tables, predicate@, object_type@, path@, call_uuid@),
            all_single_representation(final(self)@),
            !r ==> final(self)@ == old(self)@,
    {
        if self.caching_folder.is_none() {
            return false;
        }
        let ghost ts = self@.tables;
        proof {
            Self::lemma_find_table(ts, predicate@, object_type@);
        }
        let ghost mut witness: int = -1;
        match self.find(predicate, object_type) {
            Some(i) => {
                let mut table = self.df_map.remove(i);
                proof {
                    assert(table@ == ts[i as int]);
                }
                match &mut table.storage {
                    TableStorage::InMemory(_) => {},
                    TableStorage::Spilled(ps) => {
                        let ghost old_ps = ps@;
                        ps.push(path);
                        proof {
                            assert(ps@.map_values(|p: String| p@) =~= old_ps.map_values(|p: String| p@).push(path@));
                        }
                    },
                }
                table.unique = table.unique && call_uuid.eq(&table.call_uuid);
                if !table.unique {
                    self.deduplicated = false;
                    proof {
                        witness = i as int;
                    }
                }
                self.df_map.insert(i, table);
                proof {
                    assert(self@.tables =~= add_path_spec(ts, predicate@, object_type@, path@, call_uuid@));
                }
            },
            None => {
                let mut ps: Vec<String> = Vec::new();
                ps.push(path);
                let table = TripleTable {
                    predicate: predicate.clone(),
                    object_type: object_type.copy(),
                    storage: TableStorage::Spilled(ps),
                    unique: true,
                    call_uuid: call_uuid.clone(),
                };
                proof {
                    assert(ps@.map_values(|p: String| p@) =~= seq![path@]);
                }
                self.df_map.push(table);
                proof {
                    assert(self@.tables =~= add_path_spec(ts, predicate@, object_type@, path@, call_uuid@));
                }
            },
        }
        proof {
            let nts = self@.tables;
            let spills = self@.caching_folder is Some;
            assert forall|i: int| 0 <= i < nts.len() implies single_representation(#[trigger] nts[i], spills) by {
                if i < ts.len() {
                    assert(single_representation(ts[i], spills));
                }
            }
            if !old(self)@.deduplicated {
                let j = choose|j: int| 0 <= j < ts.len() && !(#[trigger] ts[j]).unique;
                assert(!nts[j].unique);
            } else if !self@.deduplicated {
                assert(!nts[witness].unique);
            }
            if self@.deduplicated {
                assert forall|i: int| 0 <= i < nts.len() implies (#[trigger] nts[i]).unique by {
                    if i < ts.len() {
                        assert(ts[i].unique);
                    }
                }
            }
            assert forall|i: int, j: int| 0 <= i < nts.len() && 0 <= j < nts.len() && i != j implies
                !is_key(#[trigger] nts[i], nts[j].predicate, #[trigger] nts[j].object_type) by {
                if i < ts.len() && j < ts.len() {
                    assert(is_key(nts[i], ts[i].predicate, ts[i].object_type));
                    assert(is_key(nts[j], ts[j].predicate, ts[j].object_type));
                }
            }
        }
        true
    }

    /// Replaces the spill files of the spilled bucket `(predicate,
    /// object_type)` by `paths`, which hold its deduplicated rows, and marks
    /// it unique. Returns false, and changes nothing, when there is no such
    /// bucket or `paths` is empty.
    pub fn replace_spilled_files(&mut self, predicate: &String, object_type: &RDFNodeType, paths: Vec<String>) -> (r: bool)
        requires
            old(self)@.wf(),
        ensures
            final(self)@.wf(),
            final(self)@.caching_folder == old(self)@.caching_folder,
            r == (paths@.len() > 0 && find_table(old(self)@.tables, predicate@, object_type@) >= 0
                && old(self)@.tables[find_table(old(self)@.tables, predicate@, object_type@)].storage is Spilled),
            r ==> final(self)@.tables == old(self)@.tables.update(find_table(old(self)@.tables, predicate@, object_type@),
                TableV {
                    storage: StorageV::Spilled(paths@.map_values(|p: String| p@)),
                    unique: true,
                    ..old(self)@.tables[find_table(old(self)@.tables, predicate@, object_type@)]
                }),
            !r ==> final(self)@ == old(self)@,
    {
        let ghost ts = self@.tables;
        proof {
            Self::lemma_find_table(ts, predicate@, object_type@);
        }
        if paths.len() == 0 {
            return false;
        }
        let i = match self.find(predicate, object_type) {
            Some(i) => i,
            None => {
                return false;
            },
        };
        proof {
            assert(self.df_map@[i as int]@ == ts[i as int]);
        }
        let spilled = match &self.df_map[i].storage {
            TableStorage::Spilled(_) => true,
            TableStorage::InMemory(_) => false,
        };
        if !spilled {
            return false;
        }
        let mut table = self.df_map.remove(i);
        let ghost pv = paths@.map_values(|p: String| p@);
        table.storage = TableStorage::Spilled(paths);
        table.unique = true;
        self.df_map.insert(i, table);
        let mut all_unique = true;
        let mut j: usize = 0;
        while j < self.df_map.len()
            invariant
                j <= self.df_map.len(),
                all_unique == (forall|k: int| 0 <= k < j ==> (#[trigger] self@.tables[k]).unique),
            decreases self.df_map.len() - j,
        {
            proof {
                assert(self.df_map@[j as int]@ == self@.tables[j as int]);
            }
            if !self.df_map[j].unique {
                all_unique = false;
            }
            j += 1;
        }
        self.deduplicated = all_unique;
        proof {
            let nts = self@.tables;
            assert(nts =~= ts.update(i as int, TableV { storage: StorageV::Spilled(pv), unique: true, ..ts[i as int] }));
            let spills = self@.caching_folder is Some;
            assert(single_representation(ts[i as int], spills));
            assert forall|k: int| 0 <= k < nts.len() implies single_representation(#[trigger] nts[k], spills) by {
                assert(single_representation(ts[k], spills));
            }
            assert forall|a: int, b: int| 0 <= a < nts.len() && 0 <= b < nts.len() && a != b implies
                !is_key(#[trigger] nts[a], nts[b].predicate, #[trigger] nts[b].object_type) by {
                assert(is_key(nts[a], ts[a].predicate, ts[a].object_type));
                assert(is_key(nts[b], ts[b].predicate, ts[b].object_type));
            }
        }
        true
    }

    /// The indices of the spilled buckets that deduplication must rewrite.
    pub fn spilled_to_rewrite(&self) -> (r: Vec<usize>)
        ensures
            r@.map_values(|i: usize| i as int) == spilled_to_rewrite_spec(self@.tables),
    {
        let ghost ts = self@.tables;
        let mut r: Vec<usize> = Vec::new();
        let mut i: usize = 0;
        proof {
            assert(ts.take(0) =~= Seq::<TableV>::empty());
            assert(r@.map_values(|i: usize| i as int) =~= Seq::<int>::empty());
        }
        while i < self.df_map.len()
            invariant
                i <= self.df_map.len(),
                ts == self@.tables,
                r@.map_values(|i: usize| i as int) == spilled_to_rewrite_spec(ts.take(i as int)),
            decreases self.df_map.len() - i,
        {
            proof {
                assert(ts.take(i as int + 1).drop_last() =~= ts.take(i as int));
                assert(ts.take(i as int + 1).last() == self.df_map@[i as int]@);
            }
            let t = &self.df_map[i];
            let spilled = match &t.storage {
                TableStorage::Spilled(_) => true,
                TableStorage::InMemory(_) => false,
            };
            if spilled && !t.unique {
                let ghost before = r@;
                r.push(i);
                proof {
                    assert(r@.map_values(|i: usize| i as int) =~= before.map_values(|i: usize| i as int).push(i as int));
                }
            }
            i += 1;
        }
        proof {
            assert(ts.take(i as int) =~= ts);
        }
        r
    }

    /// Removes duplicate rows from every in-memory bucket that may hold
    /// them, leaving one batch per such bucket. Spilled buckets are left to
    /// `replace_spilled_files`.
    pub fn deduplicate(&mut self)
        requires
            old(self)@.wf(),
        ensures
            final(self)@.wf(),
            final(self)@.caching_folder == old(self)@.caching_folder,
            final(self)@.tables == old(self)@.tables.map_values(|t: TableV| dedup_table(t)),
            final(self)@.deduplicated == forall|i: int| 0 <= i < final(self)@.tables.len() ==> (#[trigger] final(self)@.tables[i]).unique,
            old(self)@.caching_folder is None ==> final(self)@.deduplicated,
            old(self)@.deduplicated ==> final(self)@ == old(self)@,
            all_single_representation(final(self)@),
    {
        let ghost ts = self@.tables;
        let n = self.df_map.len();
        let mut i: usize = 0;
        while i < n
            invariant
                i <= n,
                n == ts.len(),
                ts == old(self)@.tables,
                self@.caching_folder == old(self)@.caching_folder,
                self@.deduplicated == old(self)@.deduplicated,
                self@.tables.len() == n,
                forall|k: int| 0 <= k < i ==> #[trigger] self@.tables[k] == dedup_table(ts[k]),
                forall|k: int| i <= k < n ==> #[trigger] self@.tables[k] == ts[k],
            decreases n - i,
        {
            proof {
                assert(self.df_map@[i as int]@ == self@.tables[i as int]);
            }
            let ghost mid = self.df_map@;
            let ghost mid_t = self@.tables;
            let mut table = self.df_map.remove(i);
            proof {
                assert(table@ == ts[i as int]);
            }
            if !table.unique {
                match &table.storage {
                    TableStorage::InMemory(bs) => {
                        let rows = dedup_batches(bs);
                        let mut nb: Vec<Vec<Vec<Value>>> = Vec::new();
                        nb.push(rows);
                        proof {
                            assert(batches_view(nb@) =~= seq![rows_view(rows@)]);
                        }
                        table.storage = TableStorage::InMemory(nb);
                        table.unique = true;
                    },
                    TableStorage::Spilled(_) => {},
                }
            }
            proof {
                assert(table@ == dedup_table(ts[i as int]));
            }
            self.df_map.insert(i, table);
            proof {
                assert(self.df_map@ =~= mid.update(i as int, table));
                assert forall|k: int| 0 <= k < i + 1 implies #[trigger] self@.tables[k] == dedup_table(ts[k]) by {
                    assert(self@.tables[k] == self.df_map@[k]@);
                    if k < i {
                        assert(self.df_map@[k] == mid[k]);
                        assert(mid_t[k] == mid[k]@);
                    }
                }
                assert forall|k: int| i + 1 <= k < n implies #[trigger] self@.tables[k] == ts[k] by {
                    assert(self@.tables[k] == self.df_map@[k]@);
                    assert(self.df_map@[k] == mid[k]);
                    assert(mid_t[k] == mid[k]@);
                }
            }
            i += 1;
        }
        let mut all_unique = true;
        let mut j: usize = 0;
        while j < n
            invariant
                j <= n,
                n == self@.tables.len(),
                n == self.df_map.len(),
                all_unique == (forall|k: int| 0 <= k < j ==> (#[trigger] self@.tables[k]).unique),
            decreases n - j,
        {
            proof {
                assert(self.df_map@[j as int]@ == self@.tables[j as int]);
            }
            if !self.df_map[j].unique {
                all_unique = false;
            }
            j += 1;
        }
        self.deduplicated = all_unique;
        proof {
            let nts = self@.tables;
            assert(nts =~= ts.map_values(|t: TableV| dedup_table(t)));
            let spills = self@.caching_folder is Some;
            assert forall|k: int| 0 <= k < nts.len() implies single_representation(#[trigger] nts[k], spills) by {
                assert(single_representation(ts[k], spills));
            }
            assert forall|a: int, b: int| 0 <= a < nts.len() && 0 <= b < nts.len() && a != b implies
                !is_key(#[trigger] nts[a], nts[b].predicate, #[trigger] nts[b].object_type) by {
                assert(is_key(nts[a], ts[a].predicate, ts[a].object_type));
                assert(is_key(nts[b], ts[b].predicate, ts[b].object_type));
            }
            if old(self)@.caching_folder is None {
                assert forall|k: int| 0 <= k < nts.len() implies (#[trigger] nts[k]).unique by {
                    assert(single_representation(ts[k], false));
                }
            }
            if old(self)@.deduplicated {
                assert forall|k: int| 0 <= k < ts.len() implies #[trigger] dedup_table(ts[k]) == ts[k] by {
                    assert(ts[k].unique);
                }
                assert(nts =~= ts);
                assert forall|k: int| 0 <= k < nts.len() implies (#[trigger] nts[k]).unique by {
                    assert(ts[k].unique);
                }
            }
        }
    }

}

proof fn lemma_concat_contains(bs: Seq<Seq<Seq<ValueV>>>, r: Seq<ValueV>)
    ensures
        concat_batches(bs).contains(r) <==> exists|b: int| 0 <= b < bs.len() && (#[trigger] bs[b]).contains(r),
    decreases bs.len(),
{
    if bs.len() > 0 {
        let q = bs.drop_last();
        lemma_concat_contains(q, r);
        let a = concat_batches(q);
        let l = bs.last();
        if (a + l).contains(r) {
            let k = choose|k: int| 0 <= k < (a + l).len() && (a + l)[k] == r;
            if k < a.len() {
                assert(a[k] == r);
                let b = choose|b: int| 0 <= b < q.len() && (#[trigger] q[b]).contains(r);
                assert(bs[b] == q[b]);
            } else {
                assert(l[k - a.len()] == r);
                assert(bs[bs.len() - 1].contains(r));
            }
        }
        if exists|b: int| 0 <= b < bs.len() && (#[trigger] bs[b]).contains(r) {
            let b = choose|b: int| 0 <= b < bs.len() && (#[trigger] bs[b]).contains(r);
            if b < bs.len() - 1 {
                assert(q[b] == bs[b]);
                let k = choose|k: int| 0 <= k < a.len() && a[k] == r;
                assert((a + l)[k] == r);
            } else {
                let k = choose|k: int| 0 <= k < l.len() && l[k] == r;
                assert((a + l)[a.len() + k] == r);
            }
        }
    }
}

/// After deduplication an in-memory bucket holds exactly the rows that
/// some contributing batch held, and a bucket not already known to be
/// unique holds no row twice; a bucket known to be unique is left as it is.
pub proof fn lemma_deduplicate_keeps_row_set(t: TableV, r: Seq<ValueV>)
    requires
        t.storage is InMemory,
    ensures
        table_rows(dedup_table(t)).contains(r) <==> exists|b: int| 0 <= b < t.storage->InMemory_0.len()
            && (#[trigger] t.storage->InMemory_0[b]).contains(r),
        table_rows(dedup_table(t)).to_set() == table_rows(t).to_set(),
        !t.unique ==> table_rows(dedup_table(t)).no_duplicates(),
        t.unique ==> dedup_table(t) == t,
{
    let bs = t.storage->InMemory_0;
    lemma_concat_contains(bs, r);
    if !t.unique {
        let u = unique_first(concat_batches(bs));
        assert(seq![u].drop_last() =~= Seq::<Seq<Seq<ValueV>>>::empty());
        assert(concat_batches(seq![u].drop_last()) == Seq::<Seq<ValueV>>::empty());
        assert(seq![u].last() == u);
        assert(Seq::<Seq<ValueV>>::empty() + u =~= u);
        assert(concat_batches(seq![u]) =~= u);
        lemma_unique_first(concat_batches(bs));
        assert(u.to_set().contains(r) == concat_batches(bs).to_set().contains(r));
    }
}

/// Every bucket of a well-formed store is held in exactly one way: in memory
/// when the store does not spill, as spill files when it does.
pub proof fn lemma_single_representation(s: StoreV)
    requires
        s.wf(),
    ensures
        forall|i: int| 0 <= i < s.tables.len() ==>
            ((#[trigger] s.tables[i]).storage is InMemory <==> s.caching_folder is None),
{
    assert forall|i: int| 0 <= i < s.tables.len() implies
        ((#[trigger] s.tables[i]).storage is InMemory <==> s.caching_folder is None) by {
        assert(single_representation(s.tables[i], s.caching_folder is Some));
    }
}

/// Two bucket lists with the same keys holding the same batches (or spill
/// files); their uniqueness flags and call ids may differ.
pub open spec fn same_contents(a: Seq<TableV>, b: Seq<TableV>) -> bool {
    &&& a.len() == b.len()
    &&& forall|i: int| 0 <= i < a.len() ==> {
        &&& (#[trigger] a[i]).predicate == b[i].predicate
        &&& a[i].object_type == b[i].object_type
        &&& a[i].storage == b[i].storage
    }
}

/// Bucket lists with the same contents hold the same set of rows in each
/// bucket after deduplication.
pub proof fn lemma_same_contents_dedup(a: Seq<TableV>, b: Seq<TableV>)
    requires
        same_contents(a, b),
    ensures
        forall|i: int| 0 <= i < a.len() ==>
            table_rows(dedup_table(#[trigger] a[i])).to_set() == table_rows(dedup_table(b[i])).to_set(),
{
    assert forall|i: int| 0 <= i < a.len() implies table_rows(dedup_table(#[trigger] a[i])).to_set() == table_rows(dedup_table(b[i])).to_set() by {
        if a[i].storage is InMemory {
            lemma_deduplicate_keeps_row_set(a[i], seq![]);
            lemma_deduplicate_keeps_row_set(b[i], seq![]);
        }
        assert(table_rows(a[i]) == table_rows(b[i]));
    }
}

/// Absorbing the same triples into two bucket lists with the same contents,
/// under any two call ids, gives bucket lists with the same contents.
pub proof fn lemma_contents_independent_of_call_id(t1: Seq<TableV>, t2: Seq<TableV>, tdfs: Seq<TripleDFV>, u1: Seq<char>, u2: Seq<char>)
    requires
        same_contents(t1, t2),
    ensures
        same_contents(add_all_spec(t1, tdfs, u1), add_all_spec(t2, tdfs, u2)),
    decreases tdfs.len(),
{
    let a = add_all_spec(t1, tdfs, u1);
    let b = add_all_spec(t2, tdfs, u2);
    if tdfs.len() > 0 {
        lemma_contents_independent_of_call_id(t1, t2, tdfs.drop_last(), u1, u2);
        let p1 = add_all_spec(t1, tdfs.drop_last(), u1);
        let p2 = add_all_spec(t2, tdfs.drop_last(), u2);
        let t = tdfs.last();
        lemma_find_equal(p1, p2, t.predicate, t.object_type);
        let i0 = find_table(p1, t.predicate, t.object_type);
        Triplestore::lemma_find_table(p1, t.predicate, t.object_type);
        assert(a == add_rows_spec(p1, t.predicate, t.object_type, t.rows, u1));
        assert(b == add_rows_spec(p2, t.predicate, t.object_type, t.rows, u2));
        assert forall|i: int| 0 <= i < a.len() implies (#[trigger] a[i]).predicate == b[i].predicate
            && a[i].object_type == b[i].object_type && a[i].storage == b[i].storage by {
            if i0 >= 0 {
                if i != i0 {
                    assert(a[i] == p1[i]);
                    assert(b[i] == p2[i]);
                }
            } else if i < p1.len() {
                assert(a[i] == p1[i]);
                assert(b[i] == p2[i]);
            }
        }
    }
}

proof fn lemma_find_equal(p1: Seq<TableV>, p2: Seq<TableV>, p: Seq<char>, ot: NodeTypeV)
    requires
        p1.len() == p2.len(),
        forall|i: int| 0 <= i < p1.len() ==> (#[trigger] p1[i]).predicate == p2[i].predicate && p1[i].object_type == p2[i].object_type,
    ensures
        find_table(p1, p, ot) == find_table(p2, p, ot),
    decreases p1.len(),
{
    if p1.len() > 0 {
        assert(p1.last().predicate == p2.last().predicate);
        lemma_find_equal(p1.drop_last(), p2.drop_last(), p, ot);
    }
}

/// The store `new` is `old` after absorbing the leaf emissions `ts` under
/// call id `uuid`; `pending` are the prepared triples left to spill.
pub open spec fn absorbed(old: StoreV, new: StoreV, ts: Seq<TriplesToAddV>, uuid: Seq<char>, pending: Seq<TripleDFV>) -> bool {
    &&& new.wf()
    &&& new.caching_folder == old.caching_folder
    &&& old.caching_folder is None ==> new.tables == add_all_spec(old.tables, prepare_all_spec(ts), uuid) && pending.len() == 0
    &&& old.caching_folder is Some ==> new == old && pending == prepare_all_spec(ts)
}

/// The elements of the inner vectors, one vector after the other.
pub fn flatten<T>(nested: Vec<Vec<T>>) -> (r: Vec<T>)
    ensures
        r@ == nested@.map_values(|v: Vec<T>| v@).flatten(),
{
    let ghost orig = nested@;
    let total = nested.len();
    let mut rest = nested;
    let mut out: Vec<T> = Vec::new();
    let mut k: usize = 0;
    proof {
        assert(orig.take(0).map_values(|v: Vec<T>| v@) =~= Seq::<Seq<T>>::empty());
    }
    while rest.len() > 0
        invariant
            k <= orig.len(),
            orig.len() == total,
            rest@ == orig.skip(k as int),
            rest.len() == orig.len() - k,
            out@ == orig.take(k as int).map_values(|v: Vec<T>| v@).flatten(),
        decreases rest.len(),
    {
        let mut v = rest.remove(0);
        let ghost before = out@;
        let ghost vv = v@;
        proof {
            assert(v == orig[k as int]);
            assert(orig.take(k as int + 1).map_values(|v: Vec<T>| v@) =~= orig.take(k as int).map_values(|v: Vec<T>| v@).push(vv));
            orig.take(k as int).map_values(|v: Vec<T>| v@).lemma_flatten_push(vv);
        }
        out.append(&mut v);
        k += 1;
        proof {
            assert(rest@ =~= orig.skip(k as int));
        }
    }
    proof {
        assert(orig.take(k as int) =~= orig);
    }
    out
}

/// Deduplicating a store keeps its buckets, their keys and their modes;
/// every in-memory bucket then holds exactly the rows that one of its
/// contributing batches held, and a bucket that was not marked unique
/// holds no row twice.
pub proof fn lemma_deduplicated_store(old: StoreV, new: StoreV)
    requires
        old.wf(),
        new.caching_folder == old.caching_folder,
        new.tables == old.tables.map_values(|t: TableV| dedup_table(t)),
    ensures
        new.tables.len() == old.tables.len(),
        all_single_representation(new),
        forall|i: int| 0 <= i < new.tables.len() ==> is_key(#[trigger] new.tables[i], old.tables[i].predicate, old.tables[i].object_type),
        forall|i: int, r: Seq<ValueV>| 0 <= i < old.tables.len() && (#[trigger] old.tables[i]).storage is InMemory ==>
            (#[trigger] table_rows(new.tables[i]).contains(r) <==> exists|b: int| 0 <= b < old.tables[i].storage->InMemory_0.len()
                && (#[trigger] old.tables[i].storage->InMemory_0[b]).contains(r)),
        forall|i: int| 0 <= i < old.tables.len() && (#[trigger] old.tables[i]).storage is InMemory && !old.tables[i].unique ==>
            table_rows(new.tables[i]).no_duplicates(),
        old.caching_folder is None ==> forall|i: int| 0 <= i < new.tables.len() ==> (#[trigger] new.tables[i]).unique,
{
    assert forall|i: int| 0 <= i < new.tables.len() implies single_representation(#[trigger] new.tables[i], new.caching_folder is Some) by {
        assert(single_representation(old.tables[i], old.caching_folder is Some));
    }
    assert forall|i: int, r: Seq<ValueV>| 0 <= i < old.tables.len() && (#[trigger] old.tables[i]).storage is InMemory implies
        (#[trigger] table_rows(new.tables[i]).contains(r) <==> exists|b: int| 0 <= b < old.tables[i].storage->InMemory_0.len()
            && (#[trigger] old.tables[i].storage->InMemory_0[b]).contains(r)) by {
        lemma_deduplicate_keeps_row_set(old.tables[i], r);
    }
    assert forall|i: int| 0 <= i < old.tables.len() && (#[trigger] old.tables[i]).storage is InMemory && !old.tables[i].unique implies
        table_rows(new.tables[i]).no_duplicates() by {
        lemma_deduplicate_keeps_row_set(old.tables[i], seq![]);
    }
    if old.caching_folder is None {
        assert forall|i: int| 0 <= i < new.tables.len() implies (#[trigger] new.tables[i]).unique by {
            assert(single_representation(old.tables[i], false));
        }
    }
}

} // verus!
