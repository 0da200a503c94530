//! The expansion engine: resolving templates, validating an input batch
//! against a signature, walking nested template calls down to triple
//! leaves, and turning the leaves into triples for the store.
use vstd::prelude::*;
use crate::value::{Value, ValueV, Scalar, ScalarV, rows_view, row_view};
use crate::model::{
    RDFNodeType, NodeTypeV, PrimitiveColumn, PrimColV, ConstantLiteral, ConstTermV, Instance,
    Argument, StottrTerm, Parameter, ParamV, Template, TemplateDataset, MappingError,
    MappingErrorV, params_view, ottr_triple_iri, ottr_triple, triple_params, triple_signature,
    opt_str_view, xsd_string_iri, xsd_long_iri, xsd_boolean_iri, xsd_string, xsd_long, xsd_boolean,
};
use crate::batch::{Batch, BatchV, names_view, lemma_rows_view_width};
use crate::constants::{lower_spec, constant_to_value, opt_ptype_admits, opt_ptype_admits_exec};
use crate::remap::{
    StaticColumn, StaticV, Source, SourceE, dyn_view, stat_view, subsets_view, dyn_keys, stat_keys,
    index_of, lemma_index_of, lemma_index_of_unique, find_key, remap_rows, remap_spec,
    create_remapped, sources_view, select_cells,
};
use crate::triplestore::{
    Triplestore, TriplesToAdd, TriplesToAddV, TripleDF, StoreV, to_add_view, prepare_all_spec,
    tdfs_view, absorbed, table_rows, dedup_table, single_representation,
    lemma_contents_independent_of_call_id, same_contents, lemma_same_contents_dedup,
};

verus! {

/// What the expansion hands to leaf emission: a batch in the scope of the
/// triple template, with its column maps.
pub struct OTTRTripleInstance {
    pub df: Batch,
    pub dynamic_columns: Vec<(String, PrimitiveColumn)>,
    pub static_columns: Vec<(String, StaticColumn)>,
    pub has_unique_subset: bool,
}

pub struct LeafV {
    pub batch: BatchV,
    pub dynamic: Seq<(Seq<char>, PrimColV)>,
    pub stat: Seq<(Seq<char>, StaticV)>,
    pub has_unique_subset: bool,
}

impl View for OTTRTripleInstance {
    type V = LeafV;

    open spec fn view(&self) -> LeafV {
        LeafV {
            batch: self.df@,
            dynamic: dyn_view(self.dynamic_columns@),
            stat: stat_view(self.static_columns@),
            has_unique_subset: self.has_unique_subset,
        }
    }
}

pub open spec fn leaves_view(v: Seq<OTTRTripleInstance>) -> Seq<LeafV> {
    v.map_values(|l: OTTRTripleInstance| l@)
}

/// Where a slot of the triple comes from: a static constant or a column.
pub open spec fn slot_spec(l: LeafV, name: Seq<char>) -> Result<(Source, PrimColV), MappingErrorV> {
    let si = index_of(stat_keys(l.stat), name);
    if si >= 0 {
        match lower_spec(l.stat[si].1.constant_term, l.stat[si].1.ptype, false, name) {
            Ok((v, pc)) => Ok((Source::Const(v), pc)),
            Err(e) => Err(e),
        }
    } else {
        let ci = index_of(l.batch.names, name);
        let di = index_of(dyn_keys(l.dynamic), name);
        if ci >= 0 && di >= 0 {
            Ok((Source::Caller(ci), l.dynamic[di].1))
        } else {
            Err(MappingErrorV::MissingParameterColumn(name))
        }
    }
}

/// The static predicate of a leaf: `Ok(None)` when the verb is a column.
pub open spec fn static_verb_spec(l: LeafV) -> Result<Option<Seq<char>>, MappingErrorV> {
    let si = index_of(stat_keys(l.stat), "verb"@);
    if si >= 0 {
        match l.stat[si].1.constant_term {
            ConstTermV::Constant(ConstantLiteral::Iri(nn)) => Ok(Some(nn@)),
            _ => Err(MappingErrorV::InvalidPredicateConstant(l.stat[si].1.constant_term)),
        }
    } else {
        Ok(None)
    }
}

/// Leaf emission: the triples of a leaf, with the object's type and tag.
pub open spec fn create_triples_spec(l: LeafV) -> Result<TriplesToAddV, MappingErrorV> {
    match static_verb_spec(l) {
        Err(e) => Err(e),
        Ok(verb) => match slot_spec(l, "subject"@) {
            Err(e) => Err(e),
            Ok((s_src, _)) => match slot_spec(l, "object"@) {
                Err(e) => Err(e),
                Ok((o_src, opc)) => {
                    if verb is Some {
                        Ok(TriplesToAddV {
                            rows: remap_rows(l.batch.rows, seq![s_src, o_src]),
                            object_type: opc.rdf_node_type,
                            language_tag: opc.language_tag,
                            static_verb_column: verb,
                            has_unique_subset: l.has_unique_subset,
                        })
                    } else {
                        let ci = index_of(l.batch.names, "verb"@);
                        if ci >= 0 {
                            Ok(TriplesToAddV {
                                rows: remap_rows(l.batch.rows, seq![s_src, o_src, Source::Caller(ci)]),
                                object_type: opc.rdf_node_type,
                                language_tag: opc.language_tag,
                                static_verb_column: verb,
                                has_unique_subset: l.has_unique_subset,
                            })
                        } else {
                            Err(MappingErrorV::MissingParameterColumn("verb"@))
                        }
                    }
                },
            },
        },
    }
}

fn slot(l: &OTTRTripleInstance, name: &String) -> (r: Result<(SourceE, PrimitiveColumn), MappingError>)
    requires
        l.df.wf(),
    ensures
        match r {
            Ok((s, pc)) => slot_spec(l@, name@) == Ok::<(Source, PrimColV), MappingErrorV>((s@, pc@))
                && (s matches SourceE::Caller(ci) ==> ci < l.df.names@.len()),
            Err(e) => slot_spec(l@, name@) == Err::<(Source, PrimColV), MappingErrorV>(e@),
        },
{
    proof {
        assert(stat_keys(stat_view(l.static_columns@)) =~= l.static_columns@.map_values(|e: (String, StaticColumn)| e.0@));
        assert(dyn_keys(dyn_view(l.dynamic_columns@)) =~= l.dynamic_columns@.map_values(|e: (String, PrimitiveColumn)| e.0@));
    }
    match find_key(&l.static_columns, name) {
        Some(si) => {
            let sc = &l.static_columns[si].1;
            match constant_to_value(&sc.constant_term, &sc.ptype, false, name) {
                Ok((v, pc)) => Ok((SourceE::Const(v), pc)),
                Err(e) => Err(e),
            }
        },
        None => {
            let ci = l.df.column_index(name);
            let di = find_key(&l.dynamic_columns, name);
            proof {
                lemma_index_of(l@.batch.names, name@);
                if ci is None && index_of(l@.batch.names, name@) >= 0 {
                    assert(l@.batch.names.contains(name@));
                }
            }
            match (ci, di) {
                (Some(ci), Some(di)) => {
                    proof {
                        lemma_index_of_unique(l@.batch.names, name@, ci as int);
                    }
                    Ok((SourceE::Caller(ci), l.dynamic_columns[di].1.copy()))
                },
                _ => Err(MappingError::MissingParameterColumn(name.clone())),
            }
        },
    }
}

/// Turns a leaf into the triples it emits (see [`create_triples_spec`]).
pub fn create_triples(i: OTTRTripleInstance) -> (r: Result<TriplesToAdd, MappingError>)
    requires
        i.df.wf(),
    ensures
        match r {
            Ok(t) => create_triples_spec(i@) == Ok::<TriplesToAddV, MappingErrorV>(t@) && t.well_shaped(),
            Err(e) => create_triples_spec(i@) == Err::<TriplesToAddV, MappingErrorV>(e@),
        },
{
    let verb_name = String::from_str("verb");
    let subject_name = String::from_str("subject");
    let object_name = String::from_str("object");
    proof {
        assert(stat_keys(stat_view(i.static_columns@)) =~= i.static_columns@.map_values(|e: (String, StaticColumn)| e.0@));
    }
    let verb: Option<String> = match find_key(&i.static_columns, &verb_name) {
        Some(si) => {
            match &i.static_columns[si].1.constant_term {
                crate::model::ConstantTerm::Constant(ConstantLiteral::Iri(nn)) => Some(nn.clone()),
                _ => {
                    return Err(MappingError::InvalidPredicateConstant(i.static_columns[si].1.constant_term.copy()));
                },
            }
        },
        None => None,
    };
    proof {
        assert(static_verb_spec(i@) == Ok::<Option<Seq<char>>, MappingErrorV>(opt_str_view(verb)));
    }
    let (s_src, _) = match slot(&i, &subject_name) {
        Ok(x) => x,
        Err(e) => {
            return Err(e);
        },
    };
    let (o_src, opc) = match slot(&i, &object_name) {
        Ok(x) => x,
        Err(e) => {
            return Err(e);
        },
    };
    let ghost nb = i.df.names@.len();
    let mut sources: Vec<SourceE> = Vec::new();
    sources.push(s_src);
    sources.push(o_src);
    if verb.is_none() {
        match i.df.column_index(&verb_name) {
            Some(ci) => {
                proof {
                    lemma_index_of_unique(i@.batch.names, verb_name@, ci as int);
                }
                sources.push(SourceE::Caller(ci));
            },
            None => {
                proof {
                    lemma_index_of(i@.batch.names, verb_name@);
                    if index_of(i@.batch.names, verb_name@) >= 0 {
                        assert(i@.batch.names.contains(verb_name@));
                    }
                }
                return Err(MappingError::MissingParameterColumn(verb_name));
            },
        }
    }
    proof {
        lemma_rows_view_width(i.df.rows@, nb);
    }
    let rows = select_cells(&i.df.rows, &sources, Ghost(nb));
    let PrimitiveColumn { rdf_node_type, language_tag } = opc;
    let t = TriplesToAdd {
        df: Batch { names: Vec::new(), rows },
        object_type: rdf_node_type,
        language_tag,
        static_verb_column: verb,
        has_unique_subset: i.has_unique_subset,
    };
    proof {
        if verb is Some {
            assert(sources_view(sources@) =~= seq![s_src@, o_src@]);
        } else {
            assert(sources_view(sources@) =~= seq![s_src@, o_src@, sources@[2]@]);
        }
    }
    Ok(t)
}

pub open spec fn template_names(ts: Seq<Template>) -> Seq<Seq<char>> {
    ts.map_values(|t: Template| t.signature.template_name@)
}

/// The parameters of the template named exactly `name`; the triple
/// template is built in.
pub open spec fn callee_params(ds: TemplateDataset, name: Seq<char>) -> Option<Seq<ParamV>> {
    let ti = index_of(template_names(ds.templates@), name);
    if ti >= 0 {
        Some(params_view(ds.templates@[ti].signature.parameter_list@))
    } else if name == ottr_triple_iri() {
        Some(triple_params())
    } else {
        None
    }
}

/// The leaves of expanding template `name` on a batch, at most `fuel`
/// templates deep.
pub open spec fn expand_spec(ds: TemplateDataset, name: Seq<char>, b: BatchV, dynamic: Seq<(Seq<char>, PrimColV)>, stat: Seq<(Seq<char>, StaticV)>, subsets: Seq<Seq<Seq<char>>>, fuel: nat) -> Result<Seq<LeafV>, MappingErrorV>
    decreases fuel, 0int, 0int,
{
    if name == ottr_triple_iri() {
        Ok(seq![LeafV { batch: b, dynamic, stat, has_unique_subset: subsets.len() > 0 }])
    } else {
        let ti = index_of(template_names(ds.templates@), name);
        if ti < 0 {
            Err(MappingErrorV::TemplateNotFound(name))
        } else if fuel == 0 {
            Err(MappingErrorV::TemplateNestingTooDeep(name))
        } else {
            let pats = ds.templates@[ti].pattern_list@;
            expand_instances(ds, pats, pats.len() as int, b, dynamic, stat, subsets, (fuel - 1) as nat)
        }
    }
}

/// The leaves of the first `n` calls of a pattern list, in order; the
/// first failing call decides the error.
pub open spec fn expand_instances(ds: TemplateDataset, pats: Seq<Instance>, n: int, b: BatchV, dynamic: Seq<(Seq<char>, PrimColV)>, stat: Seq<(Seq<char>, StaticV)>, subsets: Seq<Seq<Seq<char>>>, fuel: nat) -> Result<Seq<LeafV>, MappingErrorV>
    decreases fuel, 1int, n,
{
    if n <= 0 {
        Ok(seq![])
    } else {
        match expand_instances(ds, pats, n - 1, b, dynamic, stat, subsets, fuel) {
            Err(e) => Err(e),
            Ok(prev) => {
                let inst = pats[n - 1];
                match callee_params(ds, inst.template_name@) {
                    None => Err(MappingErrorV::TemplateNotFound(inst.template_name@)),
                    Some(pars) => match remap_spec(inst, pars, b, dynamic, stat, subsets) {
                        Err(e) => Err(e),
                        Ok(rm) => match expand_spec(ds, inst.template_name@, rm.batch, rm.dynamic, rm.stat, rm.subsets, fuel) {
                            Err(e) => Err(e),
                            Ok(ls) => Ok(prev + ls),
                        },
                    },
                }
            },
        }
    }
}

proof fn lemma_instances_err_sticks(ds: TemplateDataset, pats: Seq<Instance>, m: int, n: int, b: BatchV, dynamic: Seq<(Seq<char>, PrimColV)>, stat: Seq<(Seq<char>, StaticV)>, subsets: Seq<Seq<Seq<char>>>, fuel: nat)
    requires
        1 <= m <= n,
        expand_instances(ds, pats, m, b, dynamic, stat, subsets, fuel) is Err,
    ensures
        expand_instances(ds, pats, n, b, dynamic, stat, subsets, fuel) == expand_instances(ds, pats, m, b, dynamic, stat, subsets, fuel),
    decreases n - m,
{
    if m < n {
        lemma_instances_err_sticks(ds, pats, m, n - 1, b, dynamic, stat, subsets, fuel);
    }
}

/// The templates and the triple store they expand into.
pub struct Mapping {
    pub template_dataset: TemplateDataset,
    pub triplestore: Triplestore,
}

impl Mapping {
    fn find_template(&self, name: &String) -> (r: Option<usize>)
        ensures
            r matches Some(i) ==> i < self.template_dataset.templates@.len(),
            r matches Some(i) ==> i as int == index_of(template_names(self.template_dataset.templates@), name@),
            r is None ==> index_of(template_names(self.template_dataset.templates@), name@) == -1,
    {
        let ts = &self.template_dataset.templates;
        let ghost ks = template_names(ts@);
        let mut i: usize = 0;
        while i < ts.len()
            invariant
                i <= ts.len(),
                ts@ == self.template_dataset.templates@,
                ks == template_names(ts@),
                forall|k: int| 0 <= k < i ==> ks[k] != name@,
            decreases ts.len() - i,
        {
            proof {
                assert(ks[i as int] == ts@[i as int].signature.template_name@);
            }
            if ts[i].signature.template_name.eq(name) {
                proof {
                    assert(ks.len() == ts@.len());
                    assert(ks[i as int] == name@);
                    lemma_index_of_unique(ks, name@, i as int);
                    assert(index_of(ks, name@) == i as int);
                }
                return Some(i);
            }
            i += 1;
        }
        proof {
            lemma_index_of(ks, name@);
            if index_of(ks, name@) >= 0 {
                assert(ks[index_of(ks, name@)] == name@);
            }
        }
        None
    }

    /// Expands template `name` on `df` down to triple leaves (see [`expand_spec`]).
    pub fn expand_rec(
        &self,
        name: &String,
        df: Batch,
        dynamic: Vec<(String, PrimitiveColumn)>,
        stat: Vec<(String, StaticColumn)>,
        subsets: Vec<Vec<String>>,
        fuel: usize,
    ) -> (r: Result<Vec<OTTRTripleInstance>, MappingError>)
        requires
            df.wf(),
        ensures
            match r {
                Ok(ls) => expand_spec(self.template_dataset, name@, df@, dyn_view(dynamic@), stat_view(stat@), subsets_view(subsets@), fuel as nat)
                    == Ok::<Seq<LeafV>, MappingErrorV>(leaves_view(ls@))
                    && forall|k: int| 0 <= k < ls@.len() ==> (#[trigger] ls@[k]).df.wf(),
                Err(e) => expand_spec(self.template_dataset, name@, df@, dyn_view(dynamic@), stat_view(stat@), subsets_view(subsets@), fuel as nat)
                    == Err::<Seq<LeafV>, MappingErrorV>(e@),
            },
        decreases fuel,
    {
        let ghost ds = self.template_dataset;
        let triple = ottr_triple();
        if name.eq(&triple) {
            let has = subsets.len() > 0;
            let leaf = OTTRTripleInstance { df, dynamic_columns: dynamic, static_columns: stat, has_unique_subset: has };
            let mut out: Vec<OTTRTripleInstance> = Vec::new();
            out.push(leaf);
            proof {
                assert(leaves_view(out@) =~= seq![leaf@]);
            }
            return Ok(out);
        }
        let ti = match self.find_template(name) {
            Some(ti) => ti,
            None => {
                return Err(MappingError::TemplateNotFound(name.clone()));
            },
        };
        if fuel == 0 {
            return Err(MappingError::TemplateNestingTooDeep(name.clone()));
        }
        let pats = &self.template_dataset.templates[ti].pattern_list;
        let ghost pv = pats@;
        let ghost bv = df@;
        let ghost dv = dyn_view(dynamic@);
        let ghost sv = stat_view(stat@);
        let ghost uv = subsets_view(subsets@);
        let mut out: Vec<OTTRTripleInstance> = Vec::new();
        proof {
            assert(leaves_view(out@) =~= Seq::<LeafV>::empty());
            assert(expand_spec(ds, name@, bv, dv, sv, uv, fuel as nat) == expand_instances(ds, pv, pv.len() as int, bv, dv, sv, uv, (fuel - 1) as nat));
        }
        let mut j: usize = 0;
        while j < pats.len()
            invariant
                j <= pats.len(),
                ti < ds.templates@.len(),
                name@ != ottr_triple_iri(),
                triple@ == ottr_triple_iri(),
                expand_spec(ds, name@, bv, dv, sv, uv, fuel as nat) == expand_instances(ds, pv, pv.len() as int, bv, dv, sv, uv, (fuel - 1) as nat),
                pv == pats@,
                pv == ds.templates@[ti as int].pattern_list@,
                ds == self.template_dataset,
                fuel > 0,
                df.wf(),
                bv == df@,
                dv == dyn_view(dynamic@),
                sv == stat_view(stat@),
                uv == subsets_view(subsets@),
                expand_instances(ds, pv, j as int, bv, dv, sv, uv, (fuel - 1) as nat) == Ok::<Seq<LeafV>, MappingErrorV>(leaves_view(out@)),
                forall|k: int| 0 <= k < out@.len() ==> (#[trigger] out@[k]).df.wf(),
            decreases pats.len() - j,
        {
            let inst = &pats[j];
            let callee = &inst.template_name;
            let ghost mut pars: Seq<ParamV> = seq![];
            proof {
                assert(pv[j as int] == *inst);
            }
            let res = match self.find_template(callee) {
                Some(ci) => {
                    proof {
                        pars = params_view(self.template_dataset.templates@[ci as int].signature.parameter_list@);
                        assert(callee_params(ds, callee@) == Some(pars));
                    }
                    create_remapped(inst, &self.template_dataset.templates[ci].signature.parameter_list, &df, &dynamic, &stat, &subsets)
                },
                None => {
                    if callee.eq(&triple) {
                        let sig = triple_signature();
                        proof {
                            pars = triple_params();
                            assert(callee_params(ds, callee@) == Some(pars));
                        }
                        create_remapped(inst, &sig.parameter_list, &df, &dynamic, &stat, &subsets)
                    } else {
                        proof {
                            assert(callee_params(ds, callee@) is None);
                            assert(expand_instances(ds, pv, j as int + 1, bv, dv, sv, uv, (fuel - 1) as nat) is Err);
                            lemma_instances_err_sticks(ds, pv, j as int + 1, pv.len() as int, bv, dv, sv, uv, (fuel - 1) as nat);
                        }
                        return Err(MappingError::TemplateNotFound(callee.clone()));
                    }
                },
            };
            proof {
                assert(callee_params(ds, callee@) == Some(pars));
            }
            match res {
                Err(e) => {
                    proof {
                        assert(expand_instances(ds, pv, j as int + 1, bv, dv, sv, uv, (fuel - 1) as nat) is Err);
                        lemma_instances_err_sticks(ds, pv, j as int + 1, pv.len() as int, bv, dv, sv, uv, (fuel - 1) as nat);
                    }
                    return Err(e);
                },
                Ok((b2, d2, s2, u2)) => {
                    let sub = self.expand_rec(callee, b2, d2, s2, u2, fuel - 1);
                    match sub {
                        Err(e) => {
                            proof {
                                assert(expand_instances(ds, pv, j as int + 1, bv, dv, sv, uv, (fuel - 1) as nat) is Err);
                                lemma_instances_err_sticks(ds, pv, j as int + 1, pv.len() as int, bv, dv, sv, uv, (fuel - 1) as nat);
                            }
                            return Err(e);
                        },
                        Ok(mut ls) => {
                            let ghost before = out@;
                            let ghost lv = ls@;
                            out.append(&mut ls);
                            proof {
                                assert(leaves_view(out@) =~= leaves_view(before) + leaves_view(lv));
                                assert forall|k: int| 0 <= k < out@.len() implies (#[trigger] out@[k]).df.wf() by {
                                    if k >= before.len() {
                                        assert(out@[k] == lv[k - before.len()]);
                                    }
                                }
                            }
                        },
                    }
                },
            }
            j += 1;
        }
        Ok(out)
    }
}

/// How a call should treat its input.
pub struct ExpandOptions {
    pub language_tags: Option<Vec<(String, String)>>,
    pub unique_subsets: Option<Vec<Vec<String>>>,
}

impl Default for ExpandOptions {
    fn default() -> (r: ExpandOptions)
        ensures
            r.language_tags is None,
            r.unique_subsets is None,
    {
        ExpandOptions { language_tags: None, unique_subsets: None }
    }
}

pub open spec fn tags_view(t: Option<Vec<(String, String)>>) -> Seq<(Seq<char>, Seq<char>)> {
    match t {
        Some(v) => v@.map_values(|e: (String, String)| (e.0@, e.1@)),
        None => seq![],
    }
}

pub open spec fn options_subsets(o: ExpandOptions) -> Seq<Seq<Seq<char>>> {
    match o.unique_subsets {
        Some(v) => subsets_view(v@),
        None => seq![],
    }
}

/// The RDF type of a non-null value.
pub open spec fn scalar_type(s: ScalarV) -> NodeTypeV {
    match s {
        ScalarV::Iri(_) => NodeTypeV::IRI,
        ScalarV::Text(_) => NodeTypeV::Literal(xsd_string_iri()),
        ScalarV::Int(_) => NodeTypeV::Literal(xsd_long_iri()),
        ScalarV::Bool(_) => NodeTypeV::Literal(xsd_boolean_iri()),
    }
}

/// The type a cell shows, and whether it is a list; none for a null or an empty list.
pub open spec fn cell_type(v: ValueV) -> Option<(NodeTypeV, bool)> {
    match v {
        ValueV::Null => None,
        ValueV::Item(s) => Some((scalar_type(s), false)),
        ValueV::List(items) => if items.len() == 0 { None } else { Some((scalar_type(items[0]), true)) },
    }
}

/// The type of column `ci`: that of its first cell that shows one.
pub open spec fn column_type(rows: Seq<Seq<ValueV>>, ci: int) -> (NodeTypeV, bool)
    decreases rows.len(),
{
    if rows.len() == 0 {
        (NodeTypeV::Unknown, false)
    } else {
        match cell_type(rows[0][ci]) {
            Some(t) => t,
            None => column_type(rows.subrange(1, rows.len() as int), ci),
        }
    }
}

pub open spec fn pair_lookup(t: Seq<(Seq<char>, Seq<char>)>, k: Seq<char>) -> Option<Seq<char>> {
    let i = index_of(t.map_values(|e: (Seq<char>, Seq<char>)| e.0), k);
    if i >= 0 { Some(t[i].1) } else { None }
}

pub struct ColumnsV {
    pub dynamic: Seq<(Seq<char>, PrimColV)>,
    pub stat: Seq<(Seq<char>, StaticV)>,
}

/// Validation of one parameter against the input batch.
pub open spec fn validate_step(acc: ColumnsV, par: Parameter, b: BatchV, tags: Seq<(Seq<char>, Seq<char>)>) -> Result<ColumnsV, MappingErrorV> {
    let pname = par.variable_name@;
    let ci = index_of(b.names, pname);
    if ci >= 0 {
        let (t0, is_list) = column_type(b.rows, ci);
        let (t, lang) = match pair_lookup(tags, pname) {
            Some(tag) => (NodeTypeV::Literal(xsd_string_iri()), Some(tag)),
            None => (t0, None),
        };
        if opt_ptype_admits(par.ptype, t, is_list) {
            Ok(ColumnsV { dynamic: acc.dynamic.push((pname, PrimColV { rdf_node_type: t, language_tag: lang })), ..acc })
        } else {
            Err(MappingErrorV::ColumnTypeMismatch(pname, t, par.ptype->Some_0))
        }
    } else {
        match par.default_value {
            Some(ct) => Ok(ColumnsV { stat: acc.stat.push((pname, StaticV { constant_term: ct@, ptype: par.ptype })), ..acc }),
            None => Err(MappingErrorV::MissingParameterColumn(pname)),
        }
    }
}

/// Validation of the first `n` parameters, stopping at the first error.
pub open spec fn validate_fold(pars: Seq<Parameter>, n: int, b: BatchV, tags: Seq<(Seq<char>, Seq<char>)>) -> Result<ColumnsV, MappingErrorV>
    decreases n,
{
    if n <= 0 {
        Ok(ColumnsV { dynamic: seq![], stat: seq![] })
    } else {
        match validate_fold(pars, n - 1, b, tags) {
            Ok(acc) => validate_step(acc, pars[n - 1], b, tags),
            Err(e) => Err(e),
        }
    }
}

/// The position of the first `:` in `s`, or -1.
pub open spec fn colon_pos(s: Seq<char>) -> int {
    if exists|i: int| 0 <= i < s.len() && s[i] == ':' {
        choose|i: int| 0 <= i < s.len() && s[i] == ':' && forall|k: int| 0 <= k < i ==> s[k] != ':'
    } else {
        -1
    }
}

/// Resolving a template name: the exact name, or a prefixed name `p:rest`
/// whose prefix `p` the prefix map expands.
pub open spec fn resolve_spec(ds: TemplateDataset, s: Seq<char>) -> Result<int, MappingErrorV> {
    let ti = index_of(template_names(ds.templates@), s);
    if ti >= 0 {
        Ok(ti)
    } else {
        let c = colon_pos(s);
        let prefix = if c >= 0 { s.take(c) } else { s };
        let rest = if c >= 0 { s.skip(c + 1) } else { seq![] };
        let pm = ds.prefix_map@.map_values(|e: (String, String)| (e.0@, e.1@));
        match pair_lookup(pm, prefix) {
            Some(iri) => {
                let full = iri + rest;
                let fi = index_of(template_names(ds.templates@), full);
                if fi >= 0 {
                    Ok(fi)
                } else {
                    Err(MappingErrorV::NoTemplateForPrefix(prefix, full))
                }
            },
            None => Err(MappingErrorV::TemplateNotFound(s)),
        }
    }
}

/// Leaf emission of every leaf, stopping at the first error.
pub open spec fn create_all_spec(ls: Seq<LeafV>) -> Result<Seq<TriplesToAddV>, MappingErrorV>
    decreases ls.len(),
{
    if ls.len() == 0 {
        Ok(seq![])
    } else {
        match create_all_spec(ls.drop_last()) {
            Err(e) => Err(e),
            Ok(prev) => match create_triples_spec(ls.last()) {
                Err(e) => Err(e),
                Ok(t) => Ok(prev.push(t)),
            },
        }
    }
}

/// The triples that one call of `expand` emits, or its error.
pub open spec fn expansion_spec(ds: TemplateDataset, template: Seq<char>, b: BatchV, options: ExpandOptions) -> Result<Seq<TriplesToAddV>, MappingErrorV> {
    match resolve_spec(ds, template) {
        Err(e) => Err(e),
        Ok(ti) => {
            let sig = ds.templates@[ti].signature;
            match validate_fold(sig.parameter_list@, sig.parameter_list@.len() as int, b, tags_view(options.language_tags)) {
                Err(e) => Err(e),
                Ok(cols) => match expand_spec(ds, sig.template_name@, b, cols.dynamic, cols.stat, options_subsets(options), ds.templates@.len()) {
                    Err(e) => Err(e),
                    Ok(ls) => create_all_spec(ls),
                },
            }
        },
    }
}

/// What a successful expansion reports: the id minted for the call, and,
/// when the store spills, the prepared triples still to be written.
pub struct MappingReport {
    pub call_uuid: String,
    pub pending: Vec<TripleDF>,
}

/// Relies on uuid::Uuid::new_v4 and its Display impl: a fresh random
/// identifier in hyphenated form. Nothing is promised of its value.
#[verifier::external_body]
pub(crate) fn new_call_uuid() -> (r: String)
{
    uuid::Uuid::new_v4().to_string()
}

pub fn scalar_type_exec(s: &Scalar) -> (t: RDFNodeType)
    ensures
        t@ == scalar_type(s@),
{
    match s {
        Scalar::Iri(_) => RDFNodeType::IRI,
        Scalar::Text(_) => RDFNodeType::Literal(xsd_string()),
        Scalar::Int(_) => RDFNodeType::Literal(xsd_long()),
        Scalar::Bool(_) => RDFNodeType::Literal(xsd_boolean()),
    }
}

fn column_type_exec(rows: &Vec<Vec<Value>>, ci: usize) -> (r: (RDFNodeType, bool))
    requires
        forall|i: int| 0 <= i < rows@.len() ==> ci < #[trigger] rows@[i]@.len(),
    ensures
        (r.0@, r.1) == column_type(rows_view(rows@), ci as int),
{
    let ghost rv = rows_view(rows@);
    proof {
        assert(rv.subrange(0, rv.len() as int) =~= rv);
    }
    let mut i: usize = 0;
    while i < rows.len()
        invariant
            i <= rows.len(),
            rv == rows_view(rows@),
            forall|i: int| 0 <= i < rows@.len() ==> ci < #[trigger] rows@[i]@.len(),
            column_type(rv, ci as int) == column_type(rv.subrange(i as int, rv.len() as int), ci as int),
        decreases rows.len() - i,
    {
        let ghost sub = rv.subrange(i as int, rv.len() as int);
        proof {
            assert(sub[0] == row_view(rows@[i as int]@));
            assert(sub.subrange(1, sub.len() as int) =~= rv.subrange(i as int + 1, rv.len() as int));
        }
        match &rows[i][ci] {
            Value::Item(s) => {
                return (scalar_type_exec(s), false);
            },
            Value::List(items) => {
                if items.len() > 0 {
                    return (scalar_type_exec(&items[0]), true);
                }
            },
            Value::Null => {},
        }
        i += 1;
    }
    (RDFNodeType::Unknown, false)
}

fn tag_for(tags: &Option<Vec<(String, String)>>, name: &String) -> (r: Option<String>)
    ensures
        opt_str_view(r) == pair_lookup(tags_view(*tags), name@),
{
    match tags {
        Some(v) => {
            proof {
                assert(tags_view(*tags).map_values(|e: (Seq<char>, Seq<char>)| e.0) =~= v@.map_values(|e: (String, String)| e.0@));
            }
            match find_key(v, name) {
                Some(i) => Some(v[i].1.clone()),
                None => None,
            }
        },
        None => {
            proof {
                lemma_index_of(tags_view(*tags).map_values(|e: (Seq<char>, Seq<char>)| e.0), name@);
            }
            None
        },
    }
}

/// Infers the type of each parameter's column, and takes defaults for the
/// parameters without one (see [`validate_fold`]).
pub fn validate_infer_columns(parameters: &Vec<Parameter>, df: &Batch, options: &ExpandOptions) -> (r: Result<(Vec<(String, PrimitiveColumn)>, Vec<(String, StaticColumn)>), MappingError>)
    requires
        df.wf(),
    ensures
        match r {
            Ok((d, s)) => validate_fold(parameters@, parameters@.len() as int, df@, tags_view(options.language_tags))
                == Ok::<ColumnsV, MappingErrorV>(ColumnsV { dynamic: dyn_view(d@), stat: stat_view(s@) }),
            Err(e) => validate_fold(parameters@, parameters@.len() as int, df@, tags_view(options.language_tags))
                == Err::<ColumnsV, MappingErrorV>(e@),
        },
{
    let ghost tv = tags_view(options.language_tags);
    let mut dynamic: Vec<(String, PrimitiveColumn)> = Vec::new();
    let mut stat: Vec<(String, StaticColumn)> = Vec::new();
    proof {
        assert(dyn_view(dynamic@) =~= Seq::<(Seq<char>, PrimColV)>::empty());
        assert(stat_view(stat@) =~= Seq::<(Seq<char>, StaticV)>::empty());
        lemma_rows_view_width(df.rows@, df.names@.len());
    }
    let mut p: usize = 0;
    while p < parameters.len()
        invariant
            p <= parameters.len(),
            df.wf(),
            tv == tags_view(options.language_tags),
            forall|i: int| 0 <= i < df.rows@.len() ==> #[trigger] df.rows@[i]@.len() == df.names@.len(),
            validate_fold(parameters@, p as int, df@, tv) == Ok::<ColumnsV, MappingErrorV>(ColumnsV { dynamic: dyn_view(dynamic@), stat: stat_view(stat@) }),
        decreases parameters.len() - p,
    {
        let par = &parameters[p];
        let pname = &par.variable_name;
        let ghost d0 = dyn_view(dynamic@);
        let ghost s0 = stat_view(stat@);
        match df.column_index(pname) {
            Some(ci) => {
                proof {
                    lemma_index_of_unique(df@.names, pname@, ci as int);
                }
                let (t0, is_list) = column_type_exec(&df.rows, ci);
                let (t, lang) = match tag_for(&options.language_tags, pname) {
                    Some(tag) => (RDFNodeType::Literal(xsd_string()), Some(tag)),
                    None => (t0, None),
                };
                if opt_ptype_admits_exec(&par.ptype, &t, is_list) {
                    dynamic.push((pname.clone(), PrimitiveColumn { rdf_node_type: t, language_tag: lang }));
                    proof {
                        assert(dyn_view(dynamic@) =~= d0.push((pname@, PrimColV { rdf_node_type: t@, language_tag: opt_str_view(lang) })));
                    }
                } else {
                    proof {
                        lemma_validate_err_sticks(parameters@, p as int + 1, parameters@.len() as int, df@, tv);
                    }
                    let declared = match &par.ptype {
                        Some(d) => d.copy(),
                        None => {
                            proof {
                                assert(false);
                            }
                            return Err(MappingError::MissingParameterColumn(pname.clone()));
                        },
                    };
                    return Err(MappingError::ColumnTypeMismatch(pname.clone(), t, declared));
                }
            },
            None => {
                proof {
                    lemma_index_of(df@.names, pname@);
                    if index_of(df@.names, pname@) >= 0 {
                        assert(df@.names.contains(pname@));
                    }
                }
                match &par.default_value {
                    Some(ct) => {
                        stat.push((pname.clone(), StaticColumn { constant_term: ct.copy(), ptype: crate::model::copy_opt_ptype(&par.ptype) }));
                        proof {
                            assert(stat_view(stat@) =~= s0.push((pname@, StaticV { constant_term: ct@, ptype: par.ptype })));
                        }
                    },
                    None => {
                        proof {
                            lemma_validate_err_sticks(parameters@, p as int + 1, parameters@.len() as int, df@, tv);
                        }
                        return Err(MappingError::MissingParameterColumn(pname.clone()));
                    },
                }
            },
        }
        p += 1;
    }
    Ok((dynamic, stat))
}

proof fn lemma_validate_err_sticks(pars: Seq<Parameter>, m: int, n: int, b: BatchV, tags: Seq<(Seq<char>, Seq<char>)>)
    requires
        1 <= m <= n,
        validate_fold(pars, m, b, tags) is Err,
    ensures
        validate_fold(pars, n, b, tags) == validate_fold(pars, m, b, tags),
    decreases n - m,
{
    if m < n {
        lemma_validate_err_sticks(pars, m, n - 1, b, tags);
    }
}

proof fn lemma_first_colon_unique(s: Seq<char>, i: int)
    requires
        0 <= i < s.len(),
        s[i] == ':',
        forall|k: int| 0 <= k < i ==> s[k] != ':',
    ensures
        colon_pos(s) == i,
{
    let j = colon_pos(s);
    assert(0 <= j < s.len() && s[j] == ':' && forall|k: int| 0 <= k < j ==> s[k] != ':');
    if j < i {
        assert(s[j] != ':');
    } else if i < j {
        assert(s[i] != ':');
    }
}

fn first_colon(s: &str) -> (r: Option<usize>)
    ensures
        r matches Some(c) ==> c < s@.len() && c as int == colon_pos(s@),
        r is None ==> colon_pos(s@) == -1,
{
    let n = s.unicode_len();
    let mut i: usize = 0;
    while i < n
        invariant
            i <= n,
            n == s@.len(),
            forall|k: int| 0 <= k < i ==> s@[k] != ':',
        decreases n - i,
    {
        if s.get_char(i) == ':' {
            proof {
                lemma_first_colon_unique(s@, i as int);
            }
            return Some(i);
        }
        i += 1;
    }
    None
}

impl Mapping {
    pub fn new(template_dataset: TemplateDataset, caching_folder: Option<String>) -> (r: Mapping)
        ensures
            r.template_dataset == template_dataset,
            r.triplestore@.wf(),
            r.triplestore@.tables.len() == 0,
            r.triplestore@.caching_folder == opt_str_view(caching_folder),
    {
        Mapping { template_dataset, triplestore: Triplestore::new(caching_folder) }
    }

    /// Finds a template by its name or by a prefixed name (see [`resolve_spec`]).
    pub fn resolve_template(&self, s: &String) -> (r: Result<usize, MappingError>)
        ensures
            match r {
                Ok(i) => i < self.template_dataset.templates@.len() && resolve_spec(self.template_dataset, s@) == Ok::<int, MappingErrorV>(i as int),
                Err(e) => resolve_spec(self.template_dataset, s@) == Err::<int, MappingErrorV>(e@),
            },
    {
        if let Some(i) = self.find_template(s) {
            return Ok(i);
        }
        let st = s.as_str();
        let n = st.unicode_len();
        let (prefix, rest) = match first_colon(st) {
            Some(c) => (String::from_str(st.substring_char(0, c)), String::from_str(st.substring_char(c + 1, n))),
            None => (s.clone(), String::new()),
        };
        proof {
            if colon_pos(s@) >= 0 {
                assert(s@.subrange(0, colon_pos(s@)) =~= s@.take(colon_pos(s@)));
                assert(s@.subrange(colon_pos(s@) + 1, s@.len() as int) =~= s@.skip(colon_pos(s@) + 1));
            } else {
                assert(rest@ =~= Seq::<char>::empty());
            }
            let pm = self.template_dataset.prefix_map@.map_values(|e: (String, String)| (e.0@, e.1@));
            assert(pm.map_values(|e: (Seq<char>, Seq<char>)| e.0) =~= self.template_dataset.prefix_map@.map_values(|e: (String, String)| e.0@));
        }
        match find_key(&self.template_dataset.prefix_map, &prefix) {
            Some(pi) => {
                let mut full = self.template_dataset.prefix_map[pi].1.clone();
                full.append(rest.as_str());
                match self.find_template(&full) {
                    Some(fi) => Ok(fi),
                    None => Err(MappingError::NoTemplateForPrefix(prefix, full)),
                }
            },
            None => Err(MappingError::TemplateNotFound(s.clone())),
        }
    }

    /// Emits the triples of every leaf and hands them to the store; nothing
    /// reaches the store when any leaf fails.
    pub fn process_results(&mut self, result_vec: Vec<OTTRTripleInstance>, call_uuid: &String) -> (r: Result<Vec<TripleDF>, MappingError>)
        requires
            old(self).triplestore@.wf(),
            forall|k: int| 0 <= k < result_vec@.len() ==> (#[trigger] result_vec@[k]).df.wf(),
        ensures
            final(self).template_dataset == old(self).template_dataset,
            match r {
                Ok(p) => create_all_spec(leaves_view(result_vec@)) is Ok && absorbed(old(self).triplestore@, final(self).triplestore@,
                    create_all_spec(leaves_view(result_vec@))->Ok_0, call_uuid@, tdfs_view(p@)),
                Err(e) => create_all_spec(leaves_view(result_vec@)) == Err::<Seq<TriplesToAddV>, MappingErrorV>(e@)
                    && final(self).triplestore@ == old(self).triplestore@,
            },
    {
        let ghost orig = result_vec@;
        let ghost lv = leaves_view(orig);
        let total = result_vec.len();
        let mut rest = result_vec;
        let mut triples: Vec<TriplesToAdd> = Vec::new();
        let mut k: usize = 0;
        proof {
            assert(lv.take(0) =~= Seq::<LeafV>::empty());
            assert(to_add_view(triples@) =~= Seq::<TriplesToAddV>::empty());
        }
        while rest.len() > 0
            invariant
                k <= orig.len(),
                orig.len() == total,
                orig == result_vec@,
                lv == leaves_view(orig),
                self.triplestore@ == old(self).triplestore@,
                self.template_dataset == old(self).template_dataset,
                rest@ == orig.skip(k as int),
                rest.len() == orig.len() - k,
                forall|k: int| 0 <= k < orig.len() ==> (#[trigger] orig[k]).df.wf(),
                create_all_spec(lv.take(k as int)) == Ok::<Seq<TriplesToAddV>, MappingErrorV>(to_add_view(triples@)),
                forall|m: int| 0 <= m < triples@.len() ==> (#[trigger] triples@[m]).well_shaped(),
            decreases rest.len(),
        {
            let leaf = rest.remove(0);
            proof {
                assert(leaf == orig[k as int]);
                assert(lv.take(k as int + 1).drop_last() =~= lv.take(k as int));
                assert(lv.take(k as int + 1).last() == leaf@);
            }
            match create_triples(leaf) {
                Ok(t) => {
                    let ghost before = triples@;
                    triples.push(t);
                    proof {
                        assert(to_add_view(triples@) =~= to_add_view(before).push(t@));
                    }
                },
                Err(e) => {
                    proof {
                        assert(create_all_spec(lv.take(k as int + 1)) == Err::<Seq<TriplesToAddV>, MappingErrorV>(e@));
                        lemma_create_all_err_sticks(lv, k as int + 1, lv.len() as int);
                        assert(lv.take(lv.len() as int) =~= lv);
                    }
                    return Err(e);
                },
            }
            k += 1;
            proof {
                assert(rest@ =~= orig.skip(k as int));
            }
        }
        proof {
            assert(lv.take(k as int) =~= lv);
        }
        let pending = self.triplestore.add_triples_vec(triples, call_uuid);
        Ok(pending)
    }

    /// Expands `template` over the rows of `df` and absorbs the triples into
    /// the store (see [`expansion_spec`]); the store is left unchanged on error.
    pub fn expand(&mut self, template: &String, df: Batch, options: ExpandOptions) -> (r: Result<MappingReport, MappingError>)
        requires
            old(self).triplestore@.wf(),
            df.wf(),
        ensures
            final(self).template_dataset == old(self).template_dataset,
            match r {
                Ok(rep) => expansion_spec(old(self).template_dataset, template@, df@, options) is Ok
                    && absorbed(old(self).triplestore@, final(self).triplestore@,
                        expansion_spec(old(self).template_dataset, template@, df@, options)->Ok_0, rep.call_uuid@, tdfs_view(rep.pending@)),
                Err(e) => expansion_spec(old(self).template_dataset, template@, df@, options) == Err::<Seq<TriplesToAddV>, MappingErrorV>(e@)
                    && final(self).triplestore@ == old(self).triplestore@,
            },
    {
        let ti = match self.resolve_template(template) {
            Ok(ti) => ti,
            Err(e) => {
                return Err(e);
            },
        };
        let sig = &self.template_dataset.templates[ti].signature;
        let (dynamic, stat) = match validate_infer_columns(&sig.parameter_list, &df, &options) {
            Ok(x) => x,
            Err(e) => {
                return Err(e);
            },
        };
        let name = sig.template_name.clone();
        let fuel = self.template_dataset.templates.len();
        let ExpandOptions { language_tags: _, unique_subsets } = options;
        let subsets = match unique_subsets {
            Some(u) => u,
            None => Vec::new(),
        };
        proof {
            assert(subsets_view(subsets@) == options_subsets(options));
            if options.unique_subsets is None {
                assert(subsets_view(subsets@) =~= Seq::<Seq<Seq<char>>>::empty());
            }
        }
        let leaves = match self.expand_rec(&name, df, dynamic, stat, subsets, fuel) {
            Ok(ls) => ls,
            Err(e) => {
                return Err(e);
            },
        };
        let call_uuid = new_call_uuid();
        let pending = match self.process_results(leaves, &call_uuid) {
            Ok(p) => p,
            Err(e) => {
                return Err(e);
            },
        };
        Ok(MappingReport { call_uuid, pending })
    }
}

proof fn lemma_create_all_err_sticks(ls: Seq<LeafV>, m: int, n: int)
    requires
        1 <= m <= n <= ls.len(),
        create_all_spec(ls.take(m)) is Err,
    ensures
        create_all_spec(ls.take(n)) == create_all_spec(ls.take(m)),
    decreases n - m,
{
    if m < n {
        lemma_create_all_err_sticks(ls, m, n - 1);
        assert(ls.take(n).drop_last() =~= ls.take(n - 1));
    }
}

/// The number of rows over all leaves.
pub open spec fn total_rows(ls: Seq<LeafV>) -> int
    decreases ls.len(),
{
    if ls.len() == 0 {
        0
    } else {
        total_rows(ls.drop_last()) + ls.last().batch.rows.len()
    }
}

/// Whether every call of a pattern list is a call of the triple template
/// without a list expander.
pub open spec fn only_plain_triples(pats: Seq<Instance>) -> bool {
    forall|k: int| 0 <= k < pats.len() ==> (#[trigger] pats[k]).template_name@ == ottr_triple_iri() && pats[k].list_expander is None
}

proof fn lemma_plain_instances(ds: TemplateDataset, pats: Seq<Instance>, n: int, b: BatchV, dynamic: Seq<(Seq<char>, PrimColV)>, stat: Seq<(Seq<char>, StaticV)>, subsets: Seq<Seq<Seq<char>>>, fuel: nat)
    requires
        0 <= n <= pats.len(),
        only_plain_triples(pats),
        expand_instances(ds, pats, n, b, dynamic, stat, subsets, fuel) is Ok,
    ensures
        ({
            let ls = expand_instances(ds, pats, n, b, dynamic, stat, subsets, fuel)->Ok_0;
            &&& ls.len() == n
            &&& forall|i: int| 0 <= i < ls.len() ==> (#[trigger] ls[i]).batch.rows.len() == b.rows.len()
            &&& total_rows(ls) == b.rows.len() * n
        }),
    decreases n,
{
    if n > 0 {
        lemma_plain_instances(ds, pats, n - 1, b, dynamic, stat, subsets, fuel);
        let prev = expand_instances(ds, pats, n - 1, b, dynamic, stat, subsets, fuel)->Ok_0;
        let inst = pats[n - 1];
        let pars = callee_params(ds, inst.template_name@)->Some_0;
        let rm = remap_spec(inst, pars, b, dynamic, stat, subsets)->Ok_0;
        let leaf = LeafV { batch: rm.batch, dynamic: rm.dynamic, stat: rm.stat, has_unique_subset: rm.subsets.len() > 0 };
        assert(expand_spec(ds, inst.template_name@, rm.batch, rm.dynamic, rm.stat, rm.subsets, fuel) == Ok::<Seq<LeafV>, MappingErrorV>(seq![leaf]));
        let ls = prev + seq![leaf];
        assert(rm.batch.rows.len() == b.rows.len());
        assert(ls.drop_last() =~= prev);
        assert(total_rows(ls) == total_rows(prev) + b.rows.len());
        assert(b.rows.len() * (n - 1) + b.rows.len() == b.rows.len() * n) by (nonlinear_arith);
        assert forall|i: int| 0 <= i < ls.len() implies (#[trigger] ls[i]).batch.rows.len() == b.rows.len() by {
            if i < prev.len() {
                assert(ls[i] == prev[i]);
            }
        }
    }
}

/// A template whose body only calls the triple template, with no list
/// expander, emits one leaf per call, each holding every input row: the
/// number of triples emitted is the number of input rows times the length
/// of the pattern list.
pub proof fn lemma_flat_template_triple_count(ds: TemplateDataset, name: Seq<char>, b: BatchV, dynamic: Seq<(Seq<char>, PrimColV)>, stat: Seq<(Seq<char>, StaticV)>, subsets: Seq<Seq<Seq<char>>>, fuel: nat)
    requires
        name != ottr_triple_iri(),
        index_of(template_names(ds.templates@), name) >= 0,
        only_plain_triples(ds.templates@[index_of(template_names(ds.templates@), name)].pattern_list@),
        expand_spec(ds, name, b, dynamic, stat, subsets, fuel) is Ok,
    ensures
        ({
            let ls = expand_spec(ds, name, b, dynamic, stat, subsets, fuel)->Ok_0;
            let pats = ds.templates@[index_of(template_names(ds.templates@), name)].pattern_list@;
            &&& ls.len() == pats.len()
            &&& forall|i: int| 0 <= i < ls.len() ==> (#[trigger] ls[i]).batch.rows.len() == b.rows.len()
            &&& total_rows(ls) == b.rows.len() * pats.len()
        }),
{
    let ti = index_of(template_names(ds.templates@), name);
    let pats = ds.templates@[ti].pattern_list@;
    lemma_index_of(template_names(ds.templates@), name);
    assert(fuel > 0);
    lemma_plain_instances(ds, pats, pats.len() as int, b, dynamic, stat, subsets, (fuel - 1) as nat);
}

/// Running the same expansion on two stores with the same caching mode and
/// the same bucket contents gives stores with the same bucket contents
/// again, whatever call ids were minted and whatever the uniqueness flags
/// were; after deduplication each bucket holds the same set of rows. As the
/// outcome is `expansion_spec` of the dataset and the input alone, both runs
/// succeed or fail alike, and the law applies again to the next expansion.
pub proof fn lemma_expansion_deterministic(
    s: StoreV,
    s_other: StoreV,
    ds: TemplateDataset,
    template: Seq<char>,
    b: BatchV,
    options: ExpandOptions,
    s1: StoreV,
    s2: StoreV,
    u1: Seq<char>,
    u2: Seq<char>,
    p1: Seq<crate::triplestore::TripleDFV>,
    p2: Seq<crate::triplestore::TripleDFV>,
)
    requires
        s.wf(),
        s_other.wf(),
        s.caching_folder == s_other.caching_folder,
        same_contents(s.tables, s_other.tables),
        expansion_spec(ds, template, b, options) is Ok,
        absorbed(s, s1, expansion_spec(ds, template, b, options)->Ok_0, u1, p1),
        absorbed(s_other, s2, expansion_spec(ds, template, b, options)->Ok_0, u2, p2),
    ensures
        s1.caching_folder == s2.caching_folder,
        same_contents(s1.tables, s2.tables),
        p1 == p2,
        forall|i: int| 0 <= i < s1.tables.len() ==>
            table_rows(dedup_table(#[trigger] s1.tables[i])).to_set() == table_rows(dedup_table(s2.tables[i])).to_set(),
{
    let ts = expansion_spec(ds, template, b, options)->Ok_0;
    if s.caching_folder is None {
        lemma_contents_independent_of_call_id(s.tables, s_other.tables, prepare_all_spec(ts), u1, u2);
    }
    lemma_same_contents_dedup(s1.tables, s2.tables);
}

/// The elements of the inner vectors, one vector after the other.
pub fn flatten<T>(nested: Vec<Vec<T>>) -> (r: Vec<T>)
    ensures
        r@ == nested@.map_values(|v: Vec<T>| v@).flatten(),
{
    let ghost orig = nested@;
    let total = nested.len();
    let mut rest = nested;
    let mut out: Vec<T> = Vec::new();
    let mut k: usize = 0;
    proof {
        assert(orig.take(0).map_values(|v: Vec<T>| v@) =~= Seq::<Seq<T>>::empty());
    }
    while rest.len() > 0
        invariant
            k <= orig.len(),
            orig.len() == total,
            rest@ == orig.skip(k as int),
            rest.len() == orig.len() - k,
            out@ == orig.take(k as int).map_values(|v: Vec<T>| v@).flatten(),
        decreases rest.len(),
    {
        let mut v = rest.remove(0);
        let ghost before = out@;
        let ghost vv = v@;
        proof {
            assert(v == orig[k as int]);
            assert(orig.take(k as int + 1).map_values(|v: Vec<T>| v@) =~= orig.take(k as int).map_values(|v: Vec<T>| v@).push(vv));
            orig.take(k as int).map_values(|v: Vec<T>| v@).lemma_flatten_push(vv);
        }
        out.append(&mut v);
        k += 1;
        proof {
            assert(rest@ =~= orig.skip(k as int));
        }
    }
    proof {
        assert(orig.take(k as int) =~= orig);
    }
    out
}

/// The names of the variables passed as arguments, in argument order.
pub open spec fn variable_names(args: Seq<Argument>) -> Seq<Seq<char>>
    decreases args.len(),
{
    if args.len() == 0 {
        seq![]
    } else {
        let p = variable_names(args.drop_last());
        match args.last().term {
            StottrTerm::Variable(v) => p.push(v@),
            _ => p,
        }
    }
}

/// The variables an instance passes on, in argument order.
pub fn get_variable_names(i: &Instance) -> (r: Vec<String>)
    ensures
        names_view(r@) == variable_names(i.argument_list@),
{
    let args = &i.argument_list;
    let mut out: Vec<String> = Vec::new();
    let mut k: usize = 0;
    proof {
        assert(names_view(out@) =~= Seq::<Seq<char>>::empty());
    }
    while k < args.len()
        invariant
            k <= args.len(),
            names_view(out@) == variable_names(args@.take(k as int)),
        decreases args.len() - k,
    {
        proof {
            assert(args@.take(k as int + 1).drop_last() =~= args@.take(k as int));
            assert(args@.take(k as int + 1).last() == args@[k as int]);
        }
        match &args[k].term {
            StottrTerm::Variable(v) => {
                let ghost before = out@;
                out.push(v.clone());
                proof {
                    assert(names_view(out@) =~= names_view(before).push(v@));
                }
            },
            _ => {},
        }
        k += 1;
    }
    proof {
        assert(args@.take(k as int) =~= args@);
    }
    out
}

/// Whether every call of a pattern list is a call of the triple template.
pub open spec fn only_triples(pats: Seq<Instance>) -> bool {
    forall|k: int| 0 <= k < pats.len() ==> (#[trigger] pats[k]).template_name@ == ottr_triple_iri()
}

proof fn lemma_triple_instances(ds: TemplateDataset, pats: Seq<Instance>, n: int, b: BatchV, dynamic: Seq<(Seq<char>, PrimColV)>, stat: Seq<(Seq<char>, StaticV)>, subsets: Seq<Seq<Seq<char>>>, fuel: nat)
    requires
        0 <= n <= pats.len(),
        only_triples(pats),
        expand_instances(ds, pats, n, b, dynamic, stat, subsets, fuel) is Ok,
    ensures
        ({
            let ls = expand_instances(ds, pats, n, b, dynamic, stat, subsets, fuel)->Ok_0;
            &&& ls.len() == n
            &&& forall|i: int| 0 <= i < n ==> (#[trigger] ls[i]).batch
                == remap_spec(pats[i], callee_params(ds, ottr_triple_iri())->Some_0, b, dynamic, stat, subsets)->Ok_0.batch
        }),
    decreases n,
{
    if n > 0 {
        lemma_triple_instances(ds, pats, n - 1, b, dynamic, stat, subsets, fuel);
        let prev = expand_instances(ds, pats, n - 1, b, dynamic, stat, subsets, fuel)->Ok_0;
        let inst = pats[n - 1];
        let pars = callee_params(ds, inst.template_name@)->Some_0;
        let rm = remap_spec(inst, pars, b, dynamic, stat, subsets)->Ok_0;
        let leaf = LeafV { batch: rm.batch, dynamic: rm.dynamic, stat: rm.stat, has_unique_subset: rm.subsets.len() > 0 };
        assert(expand_spec(ds, inst.template_name@, rm.batch, rm.dynamic, rm.stat, rm.subsets, fuel) == Ok::<Seq<LeafV>, MappingErrorV>(seq![leaf]));
        let ls = prev + seq![leaf];
        assert forall|i: int| 0 <= i < n implies (#[trigger] ls[i]).batch
            == remap_spec(pats[i], callee_params(ds, ottr_triple_iri())->Some_0, b, dynamic, stat, subsets)->Ok_0.batch by {
            if i < prev.len() {
                assert(ls[i] == prev[i]);
            }
        }
    }
}

/// A template whose body only calls the triple template emits one leaf per
/// call, in order, and each leaf holds exactly the rows that remapping the
/// call makes of the input, list expansion included.
pub proof fn lemma_triple_template_leaves(ds: TemplateDataset, name: Seq<char>, b: BatchV, dynamic: Seq<(Seq<char>, PrimColV)>, stat: Seq<(Seq<char>, StaticV)>, subsets: Seq<Seq<Seq<char>>>, fuel: nat)
    requires
        name != ottr_triple_iri(),
        index_of(template_names(ds.templates@), name) >= 0,
        only_triples(ds.templates@[index_of(template_names(ds.templates@), name)].pattern_list@),
        expand_spec(ds, name, b, dynamic, stat, subsets, fuel) is Ok,
    ensures
        ({
            let ls = expand_spec(ds, name, b, dynamic, stat, subsets, fuel)->Ok_0;
            let pats = ds.templates@[index_of(template_names(ds.templates@), name)].pattern_list@;
            &&& ls.len() == pats.len()
            &&& forall|i: int| 0 <= i < ls.len() ==> (#[trigger] ls[i]).batch
                == remap_spec(pats[i], callee_params(ds, ottr_triple_iri())->Some_0, b, dynamic, stat, subsets)->Ok_0.batch
        }),
{
    let ti = index_of(template_names(ds.templates@), name);
    let pats = ds.templates@[ti].pattern_list@;
    lemma_index_of(template_names(ds.templates@), name);
    assert(fuel > 0);
    lemma_triple_instances(ds, pats, pats.len() as int, b, dynamic, stat, subsets, (fuel - 1) as nat);
}

} // verus!
