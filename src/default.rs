//! The default template of a table: one triple per non-key column, from the
//! primary key through a predicate named after the column.
use vstd::prelude::*;
use crate::value::{Scalar, Value, ValueV, ScalarV, row_view};
use crate::model::{
    PType, Parameter, Signature, StottrTerm, Argument, ConstantTerm, ConstantLiteral, Instance,
    Template, TemplateDataset, NodeTypeV, RDFNodeType, MappingError, MappingErrorV, ottr_triple_iri, ottr_triple, xsd_any_uri_iri,
    xsd_any_uri,
};
use crate::batch::{Batch, BatchV, names_view, lemma_rows_view_width};
use crate::mapping::{Mapping, ExpandOptions, MappingReport, expansion_spec, new_call_uuid, scalar_type, scalar_type_exec};
use crate::triplestore::TriplesToAddV;
use crate::triplestore::{absorbed, tdfs_view, contains_string};
use crate::model::opt_str_view;

verus! {

/// Whether `s` is a valid IRI, as oxrdf parses it.
pub uninterp spec fn iri_valid(s: Seq<char>) -> bool;

/// Relies on oxrdf::NamedNode::new: it accepts exactly the strings that
/// parse as an IRI.
#[verifier::external_body]
fn is_valid_iri(s: &String) -> (r: bool)
    ensures
        r == iri_valid(s@),
{
    oxrdf::NamedNode::new(s.as_str()).is_ok()
}

pub open spec fn default_template_prefix() -> Seq<char> {
    "http://example.net/ns#"@
}

pub open spec fn default_predicate_prefix() -> Seq<char> {
    "http://example.net/ns/predicate#"@
}

/// Whether column `c` is a key column.
pub open spec fn is_key_col(c: Seq<char>, pk: Seq<char>, fks: Seq<Seq<char>>) -> bool {
    c == pk || fks.contains(c)
}

/// The non-key columns, in order.
pub open spec fn value_columns(names: Seq<Seq<char>>, pk: Seq<char>, fks: Seq<Seq<char>>) -> Seq<Seq<char>>
    decreases names.len(),
{
    if names.len() == 0 {
        seq![]
    } else {
        let p = value_columns(names.drop_last(), pk, fks);
        if is_key_col(names.last(), pk, fks) { p } else { p.push(names.last()) }
    }
}

/// The parameter of column `c`: an IRI for a key column, untyped otherwise.
pub open spec fn default_param(p: Parameter, c: Seq<char>, key: bool) -> bool {
    &&& p.variable_name@ == c
    &&& !p.optional && !p.non_blank && p.default_value is None
    &&& key ==> (p.ptype matches Some(PType::Basic(t, _)) && t@ == xsd_any_uri_iri())
    &&& !key ==> p.ptype is None
}

/// The call `ottr:Triple(?pk, <pp c>, ?c)` of a non-key column `c`.
pub open spec fn default_instance(i: Instance, pk: Seq<char>, pp: Seq<char>, c: Seq<char>) -> bool {
    &&& i.template_name@ == ottr_triple_iri()
    &&& i.list_expander is None
    &&& i.argument_list@.len() == 3
    &&& !i.argument_list@[0].list_expand && !i.argument_list@[1].list_expand && !i.argument_list@[2].list_expand
    &&& (i.argument_list@[0].term matches StottrTerm::Variable(v) && v@ == pk)
    &&& (i.argument_list@[1].term matches StottrTerm::ConstantTerm(ConstantTerm::Constant(ConstantLiteral::Iri(p))) && p@ == pp + c)
    &&& (i.argument_list@[2].term matches StottrTerm::Variable(v) && v@ == c)
}

/// The default template of a table with columns `names`.
pub open spec fn default_template(t: Template, names: Seq<Seq<char>>, pk: Seq<char>, fks: Seq<Seq<char>>, pp: Seq<char>, name: Seq<char>) -> bool {
    let ps = t.signature.parameter_list@;
    let vs = value_columns(names, pk, fks);
    let is = t.pattern_list@;
    &&& t.signature.template_name@ == name
    &&& ps.len() == names.len()
    &&& forall|k: int| 0 <= k < names.len() ==> default_param(#[trigger] ps[k], names[k], is_key_col(names[k], pk, fks))
    &&& is.len() == vs.len()
    &&& forall|k: int| 0 <= k < vs.len() ==> default_instance(#[trigger] is[k], pk, pp, vs[k])
}

/// A key cell as an IRI: text becomes an IRI, nulls stay; other cells have
/// no IRI form.
pub open spec fn key_cell(v: ValueV) -> Option<ValueV> {
    match v {
        ValueV::Null => Some(ValueV::Null),
        ValueV::Item(ScalarV::Iri(s)) => Some(v),
        ValueV::Item(ScalarV::Text(s)) => Some(ValueV::Item(ScalarV::Iri(s))),
        _ => None,
    }
}

/// Whether every cell of the key columns has an IRI form.
pub open spec fn keys_castable(b: BatchV, pk: Seq<char>, fks: Seq<Seq<char>>) -> bool {
    forall|i: int, j: int| 0 <= i < b.rows.len() && 0 <= j < b.names.len() && is_key_col(b.names[j], pk, fks)
        ==> (#[trigger] b.rows[i][j] matches v && key_cell(v) is Some)
}

/// The batch with its key cells as IRIs.
pub open spec fn cast_keys(b: BatchV, pk: Seq<char>, fks: Seq<Seq<char>>) -> BatchV {
    BatchV {
        names: b.names,
        rows: b.rows.map_values(|r: Seq<ValueV>| Seq::new(r.len(), |j: int|
            if is_key_col(b.names[j], pk, fks) { key_cell(r[j])->Some_0 } else { r[j] })),
    }
}

fn key_cell_exec(v: &Value) -> (r: Option<Value>)
    ensures
        match r {
            Some(c) => key_cell(v@) == Some(c@),
            None => key_cell(v@) is None,
        },
{
    match v {
        Value::Null => Some(Value::Null),
        Value::Item(Scalar::Iri(s)) => Some(Value::Item(Scalar::Iri(s.clone()))),
        Value::Item(Scalar::Text(s)) => Some(Value::Item(Scalar::Iri(s.clone()))),
        _ => None,
    }
}

/// The type a key cell without an IRI form shows.
pub open spec fn key_cell_type(v: ValueV) -> NodeTypeV {
    match v {
        ValueV::Item(s) => scalar_type(s),
        ValueV::List(items) => if items.len() > 0 { scalar_type(items[0]) } else { NodeTypeV::Unknown },
        ValueV::Null => NodeTypeV::Unknown,
    }
}

/// Key column `c` holds a cell of type `t` that has no IRI form.
pub open spec fn key_mismatch(b: BatchV, pk: Seq<char>, fks: Seq<Seq<char>>, c: Seq<char>, t: NodeTypeV) -> bool {
    exists|i: int, j: int| 0 <= i < b.rows.len() && 0 <= j < b.names.len() && b.names[j] == c && is_key_col(c, pk, fks)
        && key_cell(#[trigger] b.rows[i][j]) is None && t == key_cell_type(b.rows[i][j])
}

fn key_cell_type_exec(v: &Value) -> (t: RDFNodeType)
    ensures
        t@ == key_cell_type(v@),
{
    match v {
        Value::Item(s) => scalar_type_exec(s),
        Value::List(items) => if items.len() > 0 { scalar_type_exec(&items[0]) } else { RDFNodeType::Unknown },
        Value::Null => RDFNodeType::Unknown,
    }
}

fn cast_key_columns(b: &Batch, pk: &String, fks: &Vec<String>) -> (r: Result<Batch, (String, RDFNodeType)>)
    requires
        b.wf(),
    ensures
        match r {
            Ok(o) => keys_castable(b@, pk@, names_view(fks@)) && o@ == cast_keys(b@, pk@, names_view(fks@)) && o.wf(),
            Err((c, t)) => !keys_castable(b@, pk@, names_view(fks@)) && key_mismatch(b@, pk@, names_view(fks@), c@, t@),
        },
{
    let ghost fv = names_view(fks@);
    let ghost nb = b.names@.len();
    proof {
        lemma_rows_view_width(b.rows@, nb);
        assert(fks@.map_values(|x: String| x@) =~= fv);
    }
    let mut keys: Vec<bool> = Vec::new();
    let mut j: usize = 0;
    while j < b.names.len()
        invariant
            j <= b.names.len(),
            keys.len() == j,
            fv == names_view(fks@),
            fks@.map_values(|x: String| x@) == fv,
            forall|m: int| 0 <= m < j ==> keys@[m] == is_key_col(b@.names[m], pk@, fv),
        decreases b.names.len() - j,
    {
        let k = b.names[j].eq(pk) || contains_string(fks, &b.names[j]);
        keys.push(k);
        j += 1;
    }
    let mut rows: Vec<Vec<Value>> = Vec::new();
    let mut i: usize = 0;
    while i < b.rows.len()
        invariant
            i <= b.rows.len(),
            rows.len() == i,
            fv == names_view(fks@),
            keys.len() == nb,
            nb == b.names@.len(),
            b.wf(),
            forall|i: int| 0 <= i < b.rows@.len() ==> #[trigger] b.rows@[i]@.len() == nb,
            forall|m: int| 0 <= m < nb ==> keys@[m] == is_key_col(b@.names[m], pk@, fv),
            forall|a: int, c: int| 0 <= a < i && 0 <= c < nb && is_key_col(b@.names[c], pk@, fv) ==> (#[trigger] b@.rows[a][c] matches v && key_cell(v) is Some),
            forall|m: int| 0 <= m < i ==> row_view((#[trigger] rows@[m])@) == cast_keys(b@, pk@, fv).rows[m],
            forall|m: int| 0 <= m < i ==> (#[trigger] rows@[m])@.len() == nb,
        decreases b.rows.len() - i,
    {
        let r = &b.rows[i];
        let mut nr: Vec<Value> = Vec::new();
        let mut c: usize = 0;
        while c < r.len()
            invariant
                c <= r.len(),
                fv == names_view(fks@),
                i < b.rows@.len(),
                nb == b.names@.len(),
                b@.rows[i as int] == row_view(r@),
                r@.len() == nb,
                nr.len() == c,
                keys.len() == nb,
                r == b.rows@[i as int],
                forall|m: int| 0 <= m < nb ==> keys@[m] == is_key_col(b@.names[m], pk@, fv),
                forall|m: int| 0 <= m < c && is_key_col(b@.names[m], pk@, fv) ==> key_cell(r@[m]@) is Some,
                forall|m: int| 0 <= m < c ==> (#[trigger] nr@[m])@ == (if is_key_col(b@.names[m], pk@, fv) { key_cell(r@[m]@)->Some_0 } else { r@[m]@ }),
            decreases r.len() - c,
        {
            if keys[c] {
                match key_cell_exec(&r[c]) {
                    Some(v) => nr.push(v),
                    None => {
                        let t = key_cell_type_exec(&r[c]);
                        let name = b.names[c].clone();
                        proof {
                            assert(b@.rows[i as int][c as int] == r@[c as int]@);
                            assert(!keys_castable(b@, pk@, fv));
                            assert(b@.names[c as int] == name@);
                            assert(key_mismatch(b@, pk@, fv, name@, t@));
                        }
                        return Err((name, t));
                    },
                }
            } else {
                nr.push(r[c].copy());
            }
            c += 1;
        }
        proof {
            let rv = b@.rows[i as int];
            assert(rv == row_view(r@));
            assert(row_view(nr@) =~= Seq::new(rv.len(), |j: int| if is_key_col(b@.names[j], pk@, fv) { key_cell(rv[j])->Some_0 } else { rv[j] }));
            assert forall|c: int| 0 <= c < nb && is_key_col(b@.names[c], pk@, fv) implies (#[trigger] b@.rows[i as int][c] matches v && key_cell(v) is Some) by {
                assert(b@.rows[i as int][c] == r@[c]@);
            }
        }
        rows.push(nr);
        i += 1;
    }
    let names = crate::value::copy_strings(&b.names);
    let o = Batch { names, rows };
    proof {
        assert(o@.rows =~= cast_keys(b@, pk@, fv).rows);
        assert(o@.names == b@.names);
        lemma_rows_view_width(o.rows@, nb);
    }
    Ok(o)
}

/// Whether every predicate IRI `pp c` of the value columns `vs` is valid.
pub open spec fn predicates_valid(vs: Seq<Seq<char>>, pp: Seq<char>) -> bool {
    forall|k: int| 0 <= k < vs.len() ==> iri_valid(pp + #[trigger] vs[k])
}

/// The first invalid predicate IRI, as the error it gives.
pub open spec fn first_invalid_predicate(vs: Seq<Seq<char>>, pp: Seq<char>, e: MappingErrorV) -> bool {
    exists|k: int| 0 <= k < vs.len() && !iri_valid(pp + #[trigger] vs[k]) && e == MappingErrorV::InvalidIri(pp + vs[k])
        && forall|m: int| 0 <= m < k ==> iri_valid(pp + #[trigger] vs[m])
}

fn key_ptype() -> (p: PType)
    ensures
        p matches PType::Basic(t, _) && t@ == xsd_any_uri_iri(),
{
    PType::Basic(xsd_any_uri(), String::from_str("xsd:anyURI"))
}

/// Builds the default template of a table with columns `names`.
pub fn build_default_template(names: &Vec<String>, pk: &String, fks: &Vec<String>, pp: &String, name: String) -> (r: Result<Template, MappingError>)
    ensures
        match r {
            Ok(t) => predicates_valid(value_columns(names_view(names@), pk@, names_view(fks@)), pp@)
                && default_template(t, names_view(names@), pk@, names_view(fks@), pp@, name@),
            Err(e) => first_invalid_predicate(value_columns(names_view(names@), pk@, names_view(fks@)), pp@, e@),
        },
{
    let ghost nv = names_view(names@);
    let ghost fv = names_view(fks@);
    proof {
        assert(fks@.map_values(|x: String| x@) =~= fv);
    }
    let mut params: Vec<Parameter> = Vec::new();
    let mut patterns: Vec<Instance> = Vec::new();
    let mut j: usize = 0;
    proof {
        assert(nv.take(0) =~= Seq::<Seq<char>>::empty());
    }
    while j < names.len()
        invariant
            j <= names.len(),
            nv == names_view(names@),
            fv == names_view(fks@),
            fks@.map_values(|x: String| x@) == fv,
            params.len() == j,
            forall|k: int| 0 <= k < j ==> default_param(#[trigger] params@[k], nv[k], is_key_col(nv[k], pk@, fv)),
            patterns@.len() == value_columns(nv.take(j as int), pk@, fv).len(),
            forall|k: int| 0 <= k < patterns@.len() ==> default_instance(#[trigger] patterns@[k], pk@, pp@, value_columns(nv.take(j as int), pk@, fv)[k]),
            predicates_valid(value_columns(nv.take(j as int), pk@, fv), pp@),
        decreases names.len() - j,
    {
        let c = &names[j];
        let key = c.eq(pk) || contains_string(fks, c);
        let ptype = if key { Some(key_ptype()) } else { None };
        params.push(Parameter { variable_name: c.clone(), ptype, optional: false, non_blank: false, default_value: None });
        let ghost prev = value_columns(nv.take(j as int), pk@, fv);
        proof {
            assert(nv.take(j as int + 1).drop_last() =~= nv.take(j as int));
            assert(nv.take(j as int + 1).last() == c@);
        }
        if !key {
            let mut iri = pp.clone();
            iri.append(c.as_str());
            if !is_valid_iri(&iri) {
                proof {
                    lemma_value_columns_prefix(nv, j as int + 1, pk@, fv);
                    let vs = value_columns(nv, pk@, fv);
                    let k = prev.len() as int;
                    assert(vs[k] == c@);
                    assert forall|m: int| 0 <= m < k implies iri_valid(pp@ + #[trigger] vs[m]) by {
                        assert(vs[m] == prev[m]);
                    }
                    assert(first_invalid_predicate(vs, pp@, MappingErrorV::InvalidIri(iri@)));
                }
                return Err(MappingError::InvalidIri(iri));
            }
            let mut args: Vec<Argument> = Vec::new();
            args.push(Argument { term: StottrTerm::Variable(pk.clone()), list_expand: false });
            args.push(Argument { term: StottrTerm::ConstantTerm(ConstantTerm::Constant(ConstantLiteral::Iri(iri))), list_expand: false });
            args.push(Argument { term: StottrTerm::Variable(c.clone()), list_expand: false });
            patterns.push(Instance { template_name: ottr_triple(), argument_list: args, list_expander: None });
        }
        proof {
            let now = value_columns(nv.take(j as int + 1), pk@, fv);
            assert forall|k: int| 0 <= k < patterns@.len() implies default_instance(#[trigger] patterns@[k], pk@, pp@, now[k]) by {
                if k < prev.len() {
                    assert(now[k] == prev[k]);
                }
            }
            assert forall|k: int| 0 <= k < now.len() implies iri_valid(pp@ + #[trigger] now[k]) by {
                if k < prev.len() {
                    assert(now[k] == prev[k]);
                }
            }
        }
        j += 1;
    }
    proof {
        assert(nv.take(j as int) =~= nv);
    }
    Ok(Template { signature: Signature { template_name: name, parameter_list: params }, pattern_list: patterns })
}

proof fn lemma_value_columns_prefix(names: Seq<Seq<char>>, j: int, pk: Seq<char>, fks: Seq<Seq<char>>)
    requires
        0 <= j <= names.len(),
    ensures
        value_columns(names.take(j), pk, fks).len() <= value_columns(names, pk, fks).len(),
        forall|k: int| 0 <= k < value_columns(names.take(j), pk, fks).len() ==>
            #[trigger] value_columns(names, pk, fks)[k] == value_columns(names.take(j), pk, fks)[k],
    decreases names.len() - j,
{
    if j < names.len() {
        lemma_value_columns_prefix(names, j + 1, pk, fks);
        assert(names.take(j + 1).drop_last() =~= names.take(j));
    } else {
        assert(names.take(j) =~= names);
    }
}

pub open spec fn starts_with(s: Seq<char>, prefix: Seq<char>) -> bool {
    s.len() >= prefix.len() && s.take(prefix.len() as int) == prefix
}

/// `new` is `old` with one more template: the default template of a table
/// with columns `names`, under a valid IRI that starts with `tp`.
pub open spec fn template_added(old: TemplateDataset, new: TemplateDataset, names: Seq<Seq<char>>, pk: Seq<char>, fks: Seq<Seq<char>>, pp: Seq<char>, tp: Seq<char>) -> bool {
    let t = new.templates@.last();
    let name = t.signature.template_name@;
    &&& new.templates@.len() == old.templates@.len() + 1
    &&& new.templates@.drop_last() == old.templates@
    &&& new.prefix_map == old.prefix_map
    &&& default_template(t, names, pk, fks, pp, name)
    &&& iri_valid(name)
    &&& starts_with(name, tp)
}

fn build_name(prefix: &String, id: &String) -> (r: String)
    ensures
        r@ == prefix@ + id@,
{
    let mut r = prefix.clone();
    r.append(id.as_str());
    r
}

impl Mapping {
    /// Builds the default template of `df` (key columns as IRIs, one triple
    /// per other column), adds it to the templates and expands it over `df`.
    pub fn expand_default(
        &mut self,
        df: Batch,
        pk_col: String,
        fk_cols: Vec<String>,
        template_prefix: Option<String>,
        predicate_prefix_uri: Option<String>,
        options: ExpandOptions,
    ) -> (r: Result<(Template, MappingReport), MappingError>)
        requires
            old(self).triplestore@.wf(),
            df.wf(),
        ensures
            ({
                let pp = match predicate_prefix_uri { Some(p) => p@, None => default_predicate_prefix() };
                let tp = match template_prefix { Some(p) => p@, None => default_template_prefix() };
                let fv = names_view(fk_cols@);
                let vs = value_columns(df@.names, pk_col@, fv);
                let castable = keys_castable(df@, pk_col@, fv);
                let valid = predicates_valid(vs, pp);
                &&& !castable ==> (r matches Err(MappingError::ColumnTypeMismatch(c, t, d)) && key_mismatch(df@, pk_col@, fv, c@, t@)
                    && (d matches PType::Basic(x, _) && x@ == xsd_any_uri_iri()))
                &&& castable && !valid ==> (r matches Err(e) && first_invalid_predicate(vs, pp, e@))
                &&& !(castable && valid) ==> final(self).template_dataset == old(self).template_dataset
                &&& r is Err ==> final(self).triplestore@ == old(self).triplestore@
                &&& castable && valid && r is Err ==> {
                    let e = r->Err_0;
                    ||| (e matches MappingError::InvalidIri(n) && !iri_valid(n@) && starts_with(n@, tp)
                        && final(self).template_dataset == old(self).template_dataset)
                    ||| ({
                        let name = final(self).template_dataset.templates@.last().signature.template_name@;
                        &&& template_added(old(self).template_dataset, final(self).template_dataset, df@.names, pk_col@, fv, pp, tp)
                        &&& expansion_spec(final(self).template_dataset, name, cast_keys(df@, pk_col@, fv), options)
                            == Err::<Seq<TriplesToAddV>, MappingErrorV>(e@)
                    })
                }
                &&& r matches Ok((t, rep)) ==> {
                    let name = t.signature.template_name@;
                    &&& castable && valid
                    &&& default_template(t, df@.names, pk_col@, fv, pp, name)
                    &&& template_added(old(self).template_dataset, final(self).template_dataset, df@.names, pk_col@, fv, pp, tp)
                    &&& final(self).template_dataset.templates@.last().signature.template_name@ == name
                    &&& expansion_spec(final(self).template_dataset, name, cast_keys(df@, pk_col@, fv), options) is Ok
                    &&& absorbed(old(self).triplestore@, final(self).triplestore@,
                        expansion_spec(final(self).template_dataset, name, cast_keys(df@, pk_col@, fv), options)->Ok_0,
                        rep.call_uuid@, tdfs_view(rep.pending@))
                }
            }),
    {
        let tp = match template_prefix {
            Some(p) => p,
            None => String::from_str("http://example.net/ns#"),
        };
        let pp = match predicate_prefix_uri {
            Some(p) => p,
            None => String::from_str("http://example.net/ns/predicate#"),
        };
        let casted = match cast_key_columns(&df, &pk_col, &fk_cols) {
            Ok(b) => b,
            Err((c, t)) => {
                return Err(MappingError::ColumnTypeMismatch(c, t, key_ptype()));
            },
        };
        let id = new_call_uuid();
        let name = build_name(&tp, &id);
        let template = match build_default_template(&df.names, &pk_col, &fk_cols, &pp, name.clone()) {
            Ok(t) => t,
            Err(e) => {
                return Err(e);
            },
        };
        proof {
            assert(name@.take(tp@.len() as int) =~= tp@);
        }
        if !is_valid_iri(&name) {
            return Err(MappingError::InvalidIri(name));
        }
        let copy = match build_default_template(&df.names, &pk_col, &fk_cols, &pp, name.clone()) {
            Ok(t) => t,
            Err(e) => {
                return Err(e);
            },
        };
        proof {
            assert(name@.take(tp@.len() as int) =~= tp@);
        }
        let ghost old_ds = self.template_dataset;
        self.template_dataset.templates.push(template);
        proof {
            assert(self.template_dataset.templates@.drop_last() =~= old_ds.templates@);
        }
        let report = match self.expand(&name, casted, options) {
            Ok(rep) => rep,
            Err(e) => {
                return Err(e);
            },
        };
        Ok((copy, report))
    }
}

} // verus!
