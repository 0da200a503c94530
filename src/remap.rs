//! Moving a batch from a caller's parameter scope to a callee's: renaming
//! columns, promoting list constants to columns, and list expansion.
use vstd::prelude::*;
use crate::value::{Value, ValueV, row_view, rows_view};
use crate::model::{
    PrimitiveColumn, PrimColV, ConstantTerm, ConstTermV, PType, Parameter, ParamV, Instance,
    StottrTerm, Argument, ListExpanderType, MappingError, MappingErrorV, params_view,
    copy_opt_ptype,
};
use crate::batch::{
    Batch, BatchV, names_view, cross_explode, zip_explode, explode_cross, explode_zip, rows_have_width,
    zip_set, zip_row, lemma_single_column_expanders_agree, lists_of_length,
    lemma_zip_expanders_agree_on_equal_lengths,
    lemma_rows_view_width,
};
use crate::constants::{lower_spec, constant_to_value};

verus! {

/// A constant carried along by name instead of as a column.
pub struct StaticColumn {
    pub constant_term: ConstantTerm,
    pub ptype: Option<PType>,
}

pub struct StaticV {
    pub constant_term: ConstTermV,
    pub ptype: Option<PType>,
}

impl View for StaticColumn {
    type V = StaticV;

    open spec fn view(&self) -> StaticV {
        StaticV { constant_term: self.constant_term@, ptype: self.ptype }
    }
}

impl StaticColumn {
    pub fn copy(&self) -> (r: StaticColumn)
        ensures
            r@ == self@,
    {
        StaticColumn { constant_term: self.constant_term.copy(), ptype: copy_opt_ptype(&self.ptype) }
    }
}

pub open spec fn dyn_view(d: Seq<(String, PrimitiveColumn)>) -> Seq<(Seq<char>, PrimColV)> {
    d.map_values(|e: (String, PrimitiveColumn)| (e.0@, e.1@))
}

pub open spec fn stat_view(d: Seq<(String, StaticColumn)>) -> Seq<(Seq<char>, StaticV)> {
    d.map_values(|e: (String, StaticColumn)| (e.0@, e.1@))
}

pub open spec fn subsets_view(s: Seq<Vec<String>>) -> Seq<Seq<Seq<char>>> {
    s.map_values(|v: Vec<String>| names_view(v@))
}

/// The index of the first occurrence of `n` in `ks`, or -1.
pub open spec fn index_of(ks: Seq<Seq<char>>, n: Seq<char>) -> int
    decreases ks.len(),
{
    if ks.len() == 0 {
        -1
    } else {
        let p = index_of(ks.drop_last(), n);
        if p >= 0 {
            p
        } else if ks.last() == n {
            ks.len() - 1
        } else {
            -1
        }
    }
}

pub proof fn lemma_index_of(ks: Seq<Seq<char>>, n: Seq<char>)
    ensures
        -1 <= index_of(ks, n) < ks.len(),
        index_of(ks, n) >= 0 ==> ks[index_of(ks, n)] == n && forall|k: int| 0 <= k < index_of(ks, n) ==> ks[k] != n,
        index_of(ks, n) == -1 ==> forall|k: int| 0 <= k < ks.len() ==> ks[k] != n,
    decreases ks.len(),
{
    if ks.len() > 0 {
        let q = ks.drop_last();
        lemma_index_of(q, n);
        assert forall|k: int| 0 <= k < q.len() implies q[k] == ks[k] by {}
        if index_of(q, n) == -1 && ks.last() != n {
            assert forall|k: int| 0 <= k < ks.len() implies ks[k] != n by {
                if k < q.len() {
                    assert(q[k] == ks[k]);
                }
            }
        }
        if index_of(ks, n) >= 0 {
            assert forall|k: int| 0 <= k < index_of(ks, n) implies ks[k] != n by {
                assert(q[k] == ks[k]);
            }
        }
    }
}

pub proof fn lemma_index_of_unique(ks: Seq<Seq<char>>, n: Seq<char>, j: int)
    requires
        0 <= j < ks.len(),
        ks[j] == n,
        forall|k: int| 0 <= k < j ==> ks[k] != n,
    ensures
        index_of(ks, n) == j,
    decreases ks.len(),
{
    lemma_index_of(ks, n);
    if index_of(ks, n) >= 0 && index_of(ks, n) != j {
        assert(index_of(ks, n) < j ==> ks[index_of(ks, n)] != n);
    }
}

pub open spec fn dyn_keys(d: Seq<(Seq<char>, PrimColV)>) -> Seq<Seq<char>> {
    d.map_values(|e: (Seq<char>, PrimColV)| e.0)
}

pub open spec fn stat_keys(d: Seq<(Seq<char>, StaticV)>) -> Seq<Seq<char>> {
    d.map_values(|e: (Seq<char>, StaticV)| e.0)
}

pub open spec fn pair_keys(d: Seq<(Seq<char>, Seq<char>)>) -> Seq<Seq<char>> {
    d.map_values(|e: (Seq<char>, Seq<char>)| e.0)
}

/// Where a column of the callee's batch comes from.
pub enum Source {
    Caller(int),
    Const(ValueV),
}

/// What remapping has built after some of the arguments.
pub struct RemapAcc {
    pub sources: Seq<Source>,
    pub names: Seq<Seq<char>>,
    pub dyn_out: Seq<(Seq<char>, PrimColV)>,
    pub stat_out: Seq<(Seq<char>, StaticV)>,
    pub expand: Seq<int>,
    pub renamed: Seq<(Seq<char>, Seq<char>)>,
}

pub open spec fn empty_acc() -> RemapAcc {
    RemapAcc { sources: seq![], names: seq![], dyn_out: seq![], stat_out: seq![], expand: seq![], renamed: seq![] }
}

/// Remapping one argument onto its parameter.
pub open spec fn remap_step(acc: RemapAcc, a: Argument, par: ParamV, in_expander: bool, bn: Seq<Seq<char>>, dynamic: Seq<(Seq<char>, PrimColV)>, stat: Seq<(Seq<char>, StaticV)>) -> Result<RemapAcc, MappingErrorV> {
    let pname = par.name;
    let col = acc.sources.len() as int;
    let expand = if a.list_expand { acc.expand.push(col) } else { acc.expand };
    match a.term {
        StottrTerm::Variable(v) => {
            let di = index_of(dyn_keys(dynamic), v@);
            if di >= 0 {
                let ci = index_of(bn, v@);
                if ci >= 0 {
                    Ok(RemapAcc {
                        sources: acc.sources.push(Source::Caller(ci)),
                        names: acc.names.push(pname),
                        dyn_out: acc.dyn_out.push((pname, dynamic[di].1)),
                        expand,
                        renamed: acc.renamed.push((v@, pname)),
                        ..acc
                    })
                } else {
                    Err(MappingErrorV::UnknownVariable(v@))
                }
            } else {
                let si = index_of(stat_keys(stat), v@);
                if si >= 0 {
                    Ok(RemapAcc { stat_out: acc.stat_out.push((pname, stat[si].1)), ..acc })
                } else {
                    Err(MappingErrorV::UnknownVariable(v@))
                }
            }
        },
        StottrTerm::ConstantTerm(ct) => {
            if a.list_expand {
                match lower_spec(ct@, par.ptype, in_expander, pname) {
                    Ok((v, pc)) => Ok(RemapAcc {
                        sources: acc.sources.push(Source::Const(v)),
                        names: acc.names.push(pname),
                        dyn_out: acc.dyn_out.push((pname, pc)),
                        expand,
                        ..acc
                    }),
                    Err(e) => Err(e),
                }
            } else {
                Ok(RemapAcc { stat_out: acc.stat_out.push((pname, StaticV { constant_term: ct@, ptype: par.ptype })), ..acc })
            }
        },
        StottrTerm::List(_) => Err(MappingErrorV::ListArgumentUnsupported(pname)),
    }
}

/// Remapping the first `n` arguments, stopping at the first error.
pub open spec fn remap_fold(args: Seq<Argument>, pars: Seq<ParamV>, n: int, in_expander: bool, bn: Seq<Seq<char>>, dynamic: Seq<(Seq<char>, PrimColV)>, stat: Seq<(Seq<char>, StaticV)>) -> Result<RemapAcc, MappingErrorV>
    decreases n,
{
    if n <= 0 {
        Ok(empty_acc())
    } else {
        match remap_fold(args, pars, n - 1, in_expander, bn, dynamic, stat) {
            Ok(acc) => remap_step(acc, args[n - 1], pars[n - 1], in_expander, bn, dynamic, stat),
            Err(e) => Err(e),
        }
    }
}

pub open spec fn source_cell(r: Seq<ValueV>, s: Source) -> ValueV {
    match s {
        Source::Caller(ci) => r[ci],
        Source::Const(v) => v,
    }
}

/// The callee's rows before list expansion.
pub open spec fn remap_rows(rows: Seq<Seq<ValueV>>, sources: Seq<Source>) -> Seq<Seq<ValueV>> {
    rows.map_values(|r: Seq<ValueV>| sources.map_values(|s: Source| source_cell(r, s)))
}

pub open spec fn expand_rows(rows: Seq<Seq<ValueV>>, expand: Seq<int>, le: Option<ListExpanderType>) -> Seq<Seq<ValueV>> {
    match le {
        None => rows,
        Some(ListExpanderType::Cross) => cross_explode(rows, expand),
        Some(ListExpanderType::ZipMin) => zip_explode(rows, expand, true),
        Some(ListExpanderType::ZipMax) => zip_explode(rows, expand, false),
    }
}

/// Whether every variable of a unique subset was passed on as a column.
pub open spec fn subset_survives(sub: Seq<Seq<char>>, renamed: Seq<(Seq<char>, Seq<char>)>) -> bool {
    forall|k: int| 0 <= k < sub.len() ==> index_of(pair_keys(renamed), #[trigger] sub[k]) >= 0
}

pub open spec fn rename_subset(sub: Seq<Seq<char>>, renamed: Seq<(Seq<char>, Seq<char>)>) -> Seq<Seq<char>> {
    sub.map_values(|x: Seq<char>| renamed[index_of(pair_keys(renamed), x)].1)
}

/// The unique subsets that survive into the callee, under the callee's names.
pub open spec fn remap_subsets(subsets: Seq<Seq<Seq<char>>>, renamed: Seq<(Seq<char>, Seq<char>)>) -> Seq<Seq<Seq<char>>>
    decreases subsets.len(),
{
    if subsets.len() == 0 {
        seq![]
    } else {
        let p = remap_subsets(subsets.drop_last(), renamed);
        if subset_survives(subsets.last(), renamed) {
            p.push(rename_subset(subsets.last(), renamed))
        } else {
            p
        }
    }
}

/// The callee's view of a remapped call.
pub struct RemapOut {
    pub batch: BatchV,
    pub dynamic: Seq<(Seq<char>, PrimColV)>,
    pub stat: Seq<(Seq<char>, StaticV)>,
    pub subsets: Seq<Seq<Seq<char>>>,
}

/// The whole remapping of a call `inst` to a template with parameters `pars`.
pub open spec fn remap_spec(inst: Instance, pars: Seq<ParamV>, b: BatchV, dynamic: Seq<(Seq<char>, PrimColV)>, stat: Seq<(Seq<char>, StaticV)>, subsets: Seq<Seq<Seq<char>>>) -> Result<RemapOut, MappingErrorV> {
    let args = inst.argument_list@;
    let n = if args.len() <= pars.len() { args.len() as int } else { pars.len() as int };
    match remap_fold(args, pars, n, inst.list_expander is Some, b.names, dynamic, stat) {
        Err(e) => Err(e),
        Ok(acc) => Ok(RemapOut {
            batch: BatchV { names: acc.names, rows: expand_rows(remap_rows(b.rows, acc.sources), acc.expand, inst.list_expander) },
            dynamic: acc.dyn_out,
            stat: acc.stat_out,
            subsets: if inst.list_expander is Some { seq![] } else { remap_subsets(subsets, acc.renamed) },
        }),
    }
}

/// The index of the first entry keyed by `n`.
pub fn find_key<T>(d: &Vec<(String, T)>, n: &String) -> (r: Option<usize>)
    ensures
        r matches Some(i) ==> i < d@.len() && i as int == index_of(d@.map_values(|e: (String, T)| e.0@), n@),
        r is None ==> index_of(d@.map_values(|e: (String, T)| e.0@), n@) == -1,
{
    let ghost ks = d@.map_values(|e: (String, T)| e.0@);
    let mut i: usize = 0;
    while i < d.len()
        invariant
            i <= d.len(),
            ks == d@.map_values(|e: (String, T)| e.0@),
            forall|k: int| 0 <= k < i ==> ks[k] != n@,
        decreases d.len() - i,
    {
        if d[i].0.eq(n) {
            proof {
                lemma_index_of_unique(ks, n@, i as int);
            }
            return Some(i);
        }
        i += 1;
    }
    proof {
        lemma_index_of(ks, n@);
        if index_of(ks, n@) >= 0 {
            assert(ks[index_of(ks, n@)] == n@);
        }
    }
    None
}

/// The exec counterpart of [`Source`].
pub enum SourceE {
    Caller(usize),
    Const(Value),
}

impl View for SourceE {
    type V = Source;

    open spec fn view(&self) -> Source {
        match self {
            SourceE::Caller(i) => Source::Caller(*i as int),
            SourceE::Const(v) => Source::Const(v@),
        }
    }
}

pub open spec fn sources_view(v: Seq<SourceE>) -> Seq<Source> {
    v.map_values(|s: SourceE| s@)
}

pub open spec fn pairs_view(v: Seq<(String, String)>) -> Seq<(Seq<char>, Seq<char>)> {
    v.map_values(|e: (String, String)| (e.0@, e.1@))
}

pub open spec fn idx_view(v: Seq<usize>) -> Seq<int> {
    v.map_values(|c: usize| c as int)
}

/// The remapping built so far, held in exec values.
struct Acc {
    sources: Vec<SourceE>,
    names: Vec<String>,
    dyn_out: Vec<(String, PrimitiveColumn)>,
    stat_out: Vec<(String, StaticColumn)>,
    expand: Vec<usize>,
    renamed: Vec<(String, String)>,
}

impl Acc {
    spec fn view_acc(&self) -> RemapAcc {
        RemapAcc {
            sources: sources_view(self.sources@),
            names: names_view(self.names@),
            dyn_out: dyn_view(self.dyn_out@),
            stat_out: stat_view(self.stat_out@),
            expand: idx_view(self.expand@),
            renamed: pairs_view(self.renamed@),
        }
    }

    spec fn inv(&self, nb: nat) -> bool {
        &&& self.sources.len() == self.names.len()
        &&& forall|k: int| 0 <= k < self.sources@.len() ==> (#[trigger] self.sources@[k] matches SourceE::Caller(ci) ==> ci < nb)
        &&& forall|k: int| 0 <= k < self.expand@.len() ==> #[trigger] self.expand@[k] < self.sources@.len()
    }
}

fn copy_prim(e: &(String, PrimitiveColumn)) -> (r: (String, PrimitiveColumn))
    ensures
        r.0@ == e.0@,
        r.1@ == e.1@,
{
    (e.0.clone(), e.1.copy())
}

fn copy_static(e: &(String, StaticColumn)) -> (r: (String, StaticColumn))
    ensures
        r.0@ == e.0@,
        r.1@ == e.1@,
{
    (e.0.clone(), e.1.copy())
}

/// One argument of the remapping (see [`remap_step`]).
fn remap_arg(acc: &mut Acc, a: &Argument, par: &Parameter, in_expander: bool, batch: &Batch, dynamic: &Vec<(String, PrimitiveColumn)>, stat: &Vec<(String, StaticColumn)>) -> (r: Result<(), MappingError>)
    requires
        old(acc).inv(batch.names@.len()),
    ensures
        final(acc).inv(batch.names@.len()),
        match r {
            Ok(()) => remap_step(old(acc).view_acc(), *a, ParamV { name: par.variable_name@, ptype: par.ptype }, in_expander, batch@.names, dyn_view(dynamic@), stat_view(stat@)) == Ok::<RemapAcc, MappingErrorV>(final(acc).view_acc()),
            Err(e) => remap_step(old(acc).view_acc(), *a, ParamV { name: par.variable_name@, ptype: par.ptype }, in_expander, batch@.names, dyn_view(dynamic@), stat_view(stat@)) == Err::<RemapAcc, MappingErrorV>(e@),
        },
{
    let ghost a0 = acc.view_acc();
    let pname = &par.variable_name;
    let col = acc.sources.len();
    proof {
        assert(dyn_keys(dyn_view(dynamic@)) =~= dynamic@.map_values(|e: (String, PrimitiveColumn)| e.0@));
        assert(stat_keys(stat_view(stat@)) =~= stat@.map_values(|e: (String, StaticColumn)| e.0@));
    }
    match &a.term {
        StottrTerm::Variable(v) => {
            match find_key(dynamic, v) {
                Some(di) => {
                    match batch.column_index(v) {
                        Some(ci) => {
                            proof {
                                lemma_index_of_unique(batch@.names, v@, ci as int);
                            }
                            acc.sources.push(SourceE::Caller(ci));
                            acc.names.push(pname.clone());
                            acc.dyn_out.push((pname.clone(), dynamic[di].1.copy()));
                            if a.list_expand {
                                acc.expand.push(col);
                            }
                            acc.renamed.push((v.clone(), pname.clone()));
                            proof {
                                assert(acc.view_acc().sources =~= a0.sources.push(Source::Caller(ci as int)));
                                assert(acc.view_acc().names =~= a0.names.push(pname@));
                                assert(acc.view_acc().dyn_out =~= a0.dyn_out.push((pname@, dyn_view(dynamic@)[di as int].1)));
                                assert(acc.view_acc().expand =~= (if a.list_expand { a0.expand.push(col as int) } else { a0.expand }));
                                assert(acc.view_acc().renamed =~= a0.renamed.push((v@, pname@)));
                            }
                            Ok(())
                        },
                        None => {
                            proof {
                                lemma_index_of(batch@.names, v@);
                                if index_of(batch@.names, v@) >= 0 {
                                    assert(batch@.names.contains(v@));
                                }
                            }
                            Err(MappingError::UnknownVariable(v.clone()))
                        },
                    }
                },
                None => {
                    match find_key(stat, v) {
                        Some(si) => {
                            acc.stat_out.push((pname.clone(), stat[si].1.copy()));
                            proof {
                                assert(acc.view_acc().stat_out =~= a0.stat_out.push((pname@, stat_view(stat@)[si as int].1)));
                            }
                            Ok(())
                        },
                        None => Err(MappingError::UnknownVariable(v.clone())),
                    }
                },
            }
        },
        StottrTerm::ConstantTerm(ct) => {
            if a.list_expand {
                match constant_to_value(ct, &par.ptype, in_expander, pname) {
                    Ok((v, pc)) => {
                        acc.sources.push(SourceE::Const(v));
                        acc.names.push(pname.clone());
                        acc.dyn_out.push((pname.clone(), pc));
                        acc.expand.push(col);
                        proof {
                            assert(acc.view_acc().sources =~= a0.sources.push(Source::Const(v@)));
                            assert(acc.view_acc().names =~= a0.names.push(pname@));
                            assert(acc.view_acc().dyn_out =~= a0.dyn_out.push((pname@, pc@)));
                            assert(acc.view_acc().expand =~= a0.expand.push(col as int));
                        }
                        Ok(())
                    },
                    Err(e) => Err(e),
                }
            } else {
                let sc = StaticColumn { constant_term: ct.copy(), ptype: copy_opt_ptype(&par.ptype) };
                acc.stat_out.push((pname.clone(), sc));
                proof {
                    assert(acc.view_acc().stat_out =~= a0.stat_out.push((pname@, StaticV { constant_term: ct@, ptype: par.ptype })));
                }
                Ok(())
            }
        },
        StottrTerm::List(_) => Err(MappingError::ListArgumentUnsupported(pname.clone())),
    }
}

fn source_cell_exec(r: &Vec<Value>, s: &SourceE) -> (v: Value)
    requires
        s matches SourceE::Caller(ci) ==> ci < r@.len(),
    ensures
        v@ == source_cell(row_view(r@), s@),
{
    match s {
        SourceE::Caller(ci) => r[*ci].copy(),
        SourceE::Const(v) => v.copy(),
    }
}

pub fn select_cells(rows: &Vec<Vec<Value>>, sources: &Vec<SourceE>, Ghost(nb): Ghost<nat>) -> (out: Vec<Vec<Value>>)
    requires
        forall|i: int| 0 <= i < rows@.len() ==> #[trigger] rows@[i]@.len() == nb,
        forall|k: int| 0 <= k < sources@.len() ==> (#[trigger] sources@[k] matches SourceE::Caller(ci) ==> ci < nb),
    ensures
        rows_view(out@) == remap_rows(rows_view(rows@), sources_view(sources@)),
        forall|i: int| 0 <= i < out@.len() ==> #[trigger] out@[i]@.len() == sources@.len(),
{
    let ghost sv = sources_view(sources@);
    let mut out: Vec<Vec<Value>> = Vec::new();
    let mut i: usize = 0;
    while i < rows.len()
        invariant
            i <= rows.len(),
            out.len() == i,
            sv == sources_view(sources@),
            forall|i: int| 0 <= i < rows@.len() ==> #[trigger] rows@[i]@.len() == nb,
            forall|k: int| 0 <= k < sources@.len() ==> (#[trigger] sources@[k] matches SourceE::Caller(ci) ==> ci < nb),
            forall|m: int| 0 <= m < i ==> row_view((#[trigger] out@[m])@) == sv.map_values(|s: Source| source_cell(row_view(rows@[m]@), s)),
            forall|m: int| 0 <= m < i ==> (#[trigger] out@[m])@.len() == sources@.len(),
        decreases rows.len() - i,
    {
        let r = &rows[i];
        let mut nr: Vec<Value> = Vec::new();
        let mut k: usize = 0;
        while k < sources.len()
            invariant
                k <= sources.len(),
                nr.len() == k,
                r@.len() == nb,
                sv == sources_view(sources@),
                forall|k: int| 0 <= k < sources@.len() ==> (#[trigger] sources@[k] matches SourceE::Caller(ci) ==> ci < nb),
                forall|m: int| 0 <= m < k ==> (#[trigger] nr@[m])@ == source_cell(row_view(r@), sv[m]),
            decreases sources.len() - k,
        {
            nr.push(source_cell_exec(r, &sources[k]));
            k += 1;
        }
        proof {
            assert(row_view(nr@) =~= sv.map_values(|s: Source| source_cell(row_view(r@), s)));
        }
        out.push(nr);
        i += 1;
    }
    proof {
        assert forall|m: int| 0 <= m < out@.len() implies #[trigger] rows_view(out@)[m] == remap_rows(rows_view(rows@), sv)[m] by {
            assert(rows_view(rows@)[m] == row_view(rows@[m]@));
        }
        assert(rows_view(out@) =~= remap_rows(rows_view(rows@), sv));
    }
    out
}

fn rename_subsets(subsets: &Vec<Vec<String>>, renamed: &Vec<(String, String)>) -> (out: Vec<Vec<String>>)
    ensures
        subsets_view(out@) == remap_subsets(subsets_view(subsets@), pairs_view(renamed@)),
{
    let ghost rv = pairs_view(renamed@);
    let ghost sv = subsets_view(subsets@);
    proof {
        assert(pair_keys(rv) =~= renamed@.map_values(|e: (String, String)| e.0@));
    }
    let mut out: Vec<Vec<String>> = Vec::new();
    let mut i: usize = 0;
    while i < subsets.len()
        invariant
            i <= subsets.len(),
            rv == pairs_view(renamed@),
            sv == subsets_view(subsets@),
            pair_keys(rv) == renamed@.map_values(|e: (String, String)| e.0@),
            subsets_view(out@) == remap_subsets(sv.take(i as int), rv),
        decreases subsets.len() - i,
    {
        let sub = &subsets[i];
        let mut new_sub: Vec<String> = Vec::new();
        let mut ok = true;
        let mut k: usize = 0;
        while k < sub.len()
            invariant
                k <= sub.len(),
                rv == pairs_view(renamed@),
                pair_keys(rv) == renamed@.map_values(|e: (String, String)| e.0@),
                ok ==> new_sub.len() == k,
                ok ==> forall|m: int| 0 <= m < k ==> index_of(pair_keys(rv), #[trigger] sub@[m]@) >= 0
                    && new_sub@[m]@ == rv[index_of(pair_keys(rv), sub@[m]@)].1,
                !ok ==> exists|m: int| 0 <= m < sub@.len() && index_of(pair_keys(rv), #[trigger] sub@[m]@) < 0,
            decreases sub.len() - k,
        {
            if ok {
                match find_key(renamed, &sub[k]) {
                    Some(j) => {
                        new_sub.push(renamed[j].1.clone());
                    },
                    None => {
                        ok = false;
                    },
                }
            }
            k += 1;
        }
        let ghost before = subsets_view(out@);
        proof {
            assert(sv.take(i as int + 1).drop_last() =~= sv.take(i as int));
            assert(sv.take(i as int + 1).last() == names_view(sub@));
        }
        if ok {
            proof {
                assert(names_view(new_sub@) =~= rename_subset(names_view(sub@), rv));
                assert forall|m: int| 0 <= m < names_view(sub@).len() implies index_of(pair_keys(rv), #[trigger] names_view(sub@)[m]) >= 0 by {
                    assert(names_view(sub@)[m] == sub@[m]@);
                }
            }
            out.push(new_sub);
            proof {
                assert(subsets_view(out@) =~= before.push(rename_subset(names_view(sub@), rv)));
            }
        } else {
            proof {
                let m = choose|m: int| 0 <= m < sub@.len() && index_of(pair_keys(rv), #[trigger] sub@[m]@) < 0;
                assert(names_view(sub@)[m] == sub@[m]@);
                assert(!subset_survives(names_view(sub@), rv));
            }
        }
        i += 1;
    }
    proof {
        assert(sv.take(i as int) =~= sv);
    }
    out
}

/// Remaps a call of `instance` to a template with parameters `parameters`
/// from the caller's batch and column maps (see [`remap_spec`]).
pub fn create_remapped(
    instance: &Instance,
    parameters: &Vec<Parameter>,
    batch: &Batch,
    dynamic: &Vec<(String, PrimitiveColumn)>,
    stat: &Vec<(String, StaticColumn)>,
    unique_subsets: &Vec<Vec<String>>,
) -> (r: Result<(Batch, Vec<(String, PrimitiveColumn)>, Vec<(String, StaticColumn)>, Vec<Vec<String>>), MappingError>)
    requires
        batch.wf(),
    ensures
        match r {
            Ok((b, d, s, u)) => b.wf() && remap_spec(*instance, params_view(parameters@), batch@, dyn_view(dynamic@), stat_view(stat@), subsets_view(unique_subsets@))
                == Ok::<RemapOut, MappingErrorV>(RemapOut { batch: b@, dynamic: dyn_view(d@), stat: stat_view(s@), subsets: subsets_view(u@) }),
            Err(e) => remap_spec(*instance, params_view(parameters@), batch@, dyn_view(dynamic@), stat_view(stat@), subsets_view(unique_subsets@))
                == Err::<RemapOut, MappingErrorV>(e@),
        },
{
    let ghost args = instance.argument_list@;
    let ghost pars = params_view(parameters@);
    let n = if instance.argument_list.len() <= parameters.len() { instance.argument_list.len() } else { parameters.len() };
    let in_expander = instance.list_expander.is_some();
    let ghost nb = batch.names@.len();
    proof {
        assert(pars.len() == parameters@.len());
    }
    let mut acc = Acc { sources: Vec::new(), names: Vec::new(), dyn_out: Vec::new(), stat_out: Vec::new(), expand: Vec::new(), renamed: Vec::new() };
    proof {
        assert(acc.view_acc().sources =~= empty_acc().sources);
        assert(acc.view_acc().names =~= empty_acc().names);
        assert(acc.view_acc().dyn_out =~= empty_acc().dyn_out);
        assert(acc.view_acc().stat_out =~= empty_acc().stat_out);
        assert(acc.view_acc().expand =~= empty_acc().expand);
        assert(acc.view_acc().renamed =~= empty_acc().renamed);
        assert(acc.view_acc() == empty_acc());
    }
    let mut p: usize = 0;
    while p < n
        invariant
            p <= n,
            n <= instance.argument_list@.len(),
            n <= parameters@.len(),
            n as int == (if args.len() <= pars.len() { args.len() as int } else { pars.len() as int }),
            args == instance.argument_list@,
            pars == params_view(parameters@),
            in_expander == (instance.list_expander is Some),
            nb == batch.names@.len(),
            acc.inv(nb),
            remap_fold(args, pars, p as int, in_expander, batch@.names, dyn_view(dynamic@), stat_view(stat@)) == Ok::<RemapAcc, MappingErrorV>(acc.view_acc()),
        decreases n - p,
    {
        let res = remap_arg(&mut acc, &instance.argument_list[p], &parameters[p], in_expander, batch, dynamic, stat);
        proof {
            assert(pars[p as int] == ParamV { name: parameters@[p as int].variable_name@, ptype: parameters@[p as int].ptype });
        }
        match res {
            Ok(()) => {},
            Err(e) => {
                proof {
                    assert(remap_fold(args, pars, p as int + 1, in_expander, batch@.names, dyn_view(dynamic@), stat_view(stat@)) == Err::<RemapAcc, MappingErrorV>(e@));
                    lemma_fold_err_sticks(args, pars, p as int + 1, n as int, in_expander, batch@.names, dyn_view(dynamic@), stat_view(stat@));
                }
                return Err(e);
            },
        }
        p += 1;
    }
    let Acc { sources, names, dyn_out, stat_out, expand, renamed } = acc;
    proof {
        lemma_rows_view_width(batch.rows@, nb);
    }
    let rows = select_cells(&batch.rows, &sources, Ghost(nb));
    let ghost ns = sources@.len();
    let rows = match instance.list_expander {
        None => rows,
        Some(ListExpanderType::Cross) => explode_cross(rows, &expand, Ghost(ns)),
        Some(ListExpanderType::ZipMin) => explode_zip(&rows, &expand, true),
        Some(ListExpanderType::ZipMax) => explode_zip(&rows, &expand, false),
    };
    let subsets = if instance.list_expander.is_some() { Vec::new() } else { rename_subsets(unique_subsets, &renamed) };
    let out = Batch { names, rows };
    proof {
        lemma_rows_view_width(out.rows@, ns);
        assert(out@.names.len() == ns);
        assert(subsets_view(subsets@) =~= (if instance.list_expander is Some { Seq::<Seq<Seq<char>>>::empty() } else { remap_subsets(subsets_view(unique_subsets@), pairs_view(renamed@)) }));
    }
    Ok((out, dyn_out, stat_out, subsets))
}

proof fn lemma_fold_err_sticks(args: Seq<Argument>, pars: Seq<ParamV>, m: int, n: int, in_expander: bool, bn: Seq<Seq<char>>, dynamic: Seq<(Seq<char>, PrimColV)>, stat: Seq<(Seq<char>, StaticV)>)
    requires
        1 <= m <= n,
        remap_fold(args, pars, m, in_expander, bn, dynamic, stat) is Err,
    ensures
        remap_fold(args, pars, n, in_expander, bn, dynamic, stat) == remap_fold(args, pars, m, in_expander, bn, dynamic, stat),
    decreases n - m,
{
    if m < n {
        lemma_fold_err_sticks(args, pars, m, n - 1, in_expander, bn, dynamic, stat);
    }
}

/// The number of arguments marked for list expansion.
pub open spec fn list_expand_count(args: Seq<Argument>) -> nat
    decreases args.len(),
{
    if args.len() == 0 {
        0
    } else {
        list_expand_count(args.drop_last()) + if args.last().list_expand { 1nat } else { 0nat }
    }
}

proof fn lemma_count_prefix(args: Seq<Argument>, n: int)
    requires
        0 <= n <= args.len(),
    ensures
        list_expand_count(args.take(n)) <= list_expand_count(args),
    decreases args.len() - n,
{
    if n < args.len() {
        lemma_count_prefix(args, n + 1);
        assert(args.take(n + 1).drop_last() =~= args.take(n));
    } else {
        assert(args.take(n) =~= args);
    }
}

proof fn lemma_fold_expand(args: Seq<Argument>, pars: Seq<ParamV>, n: int, in_expander: bool, bn: Seq<Seq<char>>, dynamic: Seq<(Seq<char>, PrimColV)>, stat: Seq<(Seq<char>, StaticV)>)
    requires
        0 <= n <= args.len(),
        n <= pars.len(),
        remap_fold(args, pars, n, in_expander, bn, dynamic, stat) is Ok,
    ensures
        ({
            let acc = remap_fold(args, pars, n, in_expander, bn, dynamic, stat)->Ok_0;
            &&& acc.expand.len() <= list_expand_count(args.take(n))
            &&& forall|j: int| 0 <= j < acc.expand.len() ==> 0 <= #[trigger] acc.expand[j] < acc.sources.len()
        }),
    decreases n,
{
    if n > 0 {
        lemma_fold_expand(args, pars, n - 1, in_expander, bn, dynamic, stat);
        assert(args.take(n).drop_last() =~= args.take(n - 1));
        assert(args.take(n).last() == args[n - 1]);
        let prev = remap_fold(args, pars, n - 1, in_expander, bn, dynamic, stat)->Ok_0;
        let acc = remap_fold(args, pars, n, in_expander, bn, dynamic, stat)->Ok_0;
        assert forall|j: int| 0 <= j < acc.expand.len() implies 0 <= #[trigger] acc.expand[j] < acc.sources.len() by {
            if j < prev.expand.len() {
                assert(acc.expand[j] == prev.expand[j] || acc.expand == prev.expand);
            }
        }
    }
}

proof fn lemma_zip_no_columns(rows: Seq<Seq<ValueV>>, shortest: bool)
    ensures
        zip_explode(rows, seq![], shortest) == rows,
    decreases rows.len(),
{
    if rows.len() > 0 {
        lemma_zip_no_columns(rows.drop_last(), shortest);
        let r = rows.last();
        assert(zip_set(r, seq![], 0) =~= r);
        assert(zip_row(r, seq![], shortest) =~= seq![r]);
        assert(rows.drop_last().push(r) =~= rows);
    }
}

proof fn lemma_expanders_agree_rows(rows: Seq<Seq<ValueV>>, cs: Seq<int>, w: nat, x: ListExpanderType, y: ListExpanderType)
    requires
        cs.len() <= 1,
        rows_have_width(rows, w),
        forall|j: int| 0 <= j < cs.len() ==> 0 <= #[trigger] cs[j] < w,
    ensures
        expand_rows(rows, cs, Some(x)) == expand_rows(rows, cs, Some(y)),
{
    if cs.len() == 0 {
        assert(cs =~= Seq::<int>::empty());
        lemma_zip_no_columns(rows, true);
        lemma_zip_no_columns(rows, false);
    } else {
        let c = cs[0];
        assert(cs =~= seq![c]);
        assert forall|i: int| 0 <= i < rows.len() implies c < #[trigger] rows[i].len() by {
            assert(rows[i].len() == w);
        }
        lemma_single_column_expanders_agree(rows, c);
    }
}

/// With at most one argument marked for list expansion, the three list
/// expanders remap a call alike: the same columns, rows, column maps and
/// unique subsets.
pub proof fn lemma_remap_expanders_agree(ia: Instance, ib: Instance, pars: Seq<ParamV>, b: BatchV, dynamic: Seq<(Seq<char>, PrimColV)>, stat: Seq<(Seq<char>, StaticV)>, subsets: Seq<Seq<Seq<char>>>)
    requires
        b.wf(),
        ia.argument_list@ == ib.argument_list@,
        ia.list_expander is Some,
        ib.list_expander is Some,
        list_expand_count(ia.argument_list@) <= 1,
    ensures
        remap_spec(ia, pars, b, dynamic, stat, subsets) == remap_spec(ib, pars, b, dynamic, stat, subsets),
{
    let args = ia.argument_list@;
    let n = if args.len() <= pars.len() { args.len() as int } else { pars.len() as int };
    let f = remap_fold(args, pars, n, true, b.names, dynamic, stat);
    if f is Ok {
        let acc = f->Ok_0;
        lemma_fold_expand(args, pars, n, true, b.names, dynamic, stat);
        lemma_count_prefix(args, n);
        let rows = remap_rows(b.rows, acc.sources);
        assert(rows_have_width(rows, acc.sources.len()));
        lemma_expanders_agree_rows(rows, acc.expand, acc.sources.len(), ia.list_expander->Some_0, ib.list_expander->Some_0);
    }
}

/// The truncating and the padding joint expanders remap a call alike when,
/// on every row, the lists being expanded all have one same length `n`.
pub proof fn lemma_remap_zip_expanders_agree(ia: Instance, ib: Instance, pars: Seq<ParamV>, b: BatchV, dynamic: Seq<(Seq<char>, PrimColV)>, stat: Seq<(Seq<char>, StaticV)>, subsets: Seq<Seq<Seq<char>>>, n: nat)
    requires
        b.wf(),
        ia.argument_list@ == ib.argument_list@,
        ia.list_expander == Some(ListExpanderType::ZipMin),
        ib.list_expander == Some(ListExpanderType::ZipMax),
        ({
            let args = ia.argument_list@;
            let k = if args.len() <= pars.len() { args.len() as int } else { pars.len() as int };
            remap_fold(args, pars, k, true, b.names, dynamic, stat) matches Ok(acc)
                ==> lists_of_length(remap_rows(b.rows, acc.sources), acc.expand, n)
        }),
    ensures
        remap_spec(ia, pars, b, dynamic, stat, subsets) == remap_spec(ib, pars, b, dynamic, stat, subsets),
{
    let args = ia.argument_list@;
    let k = if args.len() <= pars.len() { args.len() as int } else { pars.len() as int };
    let f = remap_fold(args, pars, k, true, b.names, dynamic, stat);
    if f is Ok {
        let acc = f->Ok_0;
        let rows = remap_rows(b.rows, acc.sources);
        if acc.expand.len() == 0 {
            assert(acc.expand =~= Seq::<int>::empty());
            lemma_zip_no_columns(rows, true);
            lemma_zip_no_columns(rows, false);
        } else {
            lemma_zip_expanders_agree_on_equal_lengths(rows, acc.expand, n);
        }
    }
}

} // verus!
