use stottrs::batch::Batch;
use stottrs::mapping::{ExpandOptions, Mapping};
use stottrs::model::{
    Argument, ConstantLiteral, ConstantTerm, Instance, ListExpanderType, MappingError, PType,
    Parameter, RDFNodeType, Signature, StottrTerm, Template, TemplateDataset,
};
use stottrs::remap::create_remapped;
use stottrs::sparql::{
    Expression, GraphPattern, OrderExpression, Query, QueryResult, SparqlError, TermPattern, TriplePattern,
};
use stottrs::triplestore::{property_to_filename, TableStorage, TripleTable, Triplestore};
use stottrs::value::{Scalar, Value};

const TRIPLE: &str = "http://ns.ottr.xyz/0.4/Triple";
const EX: &str = "http://example.org/";

fn iri(s: &str) -> Value {
    Value::Item(Scalar::Iri(s.to_string()))
}

fn int_cell(i: i64) -> Value {
    Value::Item(Scalar::Int(i))
}

fn param(name: &str) -> Parameter {
    Parameter {
        variable_name: name.to_string(),
        ptype: None,
        optional: false,
        non_blank: false,
        default_value: None,
    }
}

fn var(name: &str) -> Argument {
    Argument { term: StottrTerm::Variable(name.to_string()), list_expand: false }
}

fn var_expanded(name: &str) -> Argument {
    Argument { term: StottrTerm::Variable(name.to_string()), list_expand: true }
}

fn const_iri(s: &str) -> Argument {
    Argument {
        term: StottrTerm::ConstantTerm(ConstantTerm::Constant(ConstantLiteral::Iri(s.to_string()))),
        list_expand: false,
    }
}

fn triple(s: Argument, p: Argument, o: Argument) -> Instance {
    Instance { template_name: TRIPLE.to_string(), argument_list: vec![s, p, o], list_expander: None }
}

fn template(name: &str, params: &[&str], pattern_list: Vec<Instance>) -> Template {
    Template {
        signature: Signature {
            template_name: name.to_string(),
            parameter_list: params.iter().map(|p| param(p)).collect(),
        },
        pattern_list,
    }
}

fn dataset(templates: Vec<Template>) -> TemplateDataset {
    TemplateDataset { templates, prefix_map: vec![("ex".to_string(), EX.to_string())] }
}

fn batch(names: &[&str], rows: Vec<Vec<Value>>) -> Batch {
    Batch { names: names.iter().map(|n| n.to_string()).collect(), rows }
}

fn scenario_a_mapping() -> Mapping {
    let t = template(
        "http://example.org/T",
        &["s", "o"],
        vec![triple(var("s"), const_iri("http://example.org/p"), var("o"))],
    );
    Mapping::new(dataset(vec![t]), None)
}

fn scenario_a_batch() -> Batch {
    batch(&["s", "o"], vec![vec![iri("a"), iri("x")], vec![iri("b"), iri("y")]])
}

fn rows_of(t: &TripleTable) -> Vec<Vec<Value>> {
    match &t.storage {
        TableStorage::InMemory(bs) => bs.iter().flat_map(|b| b.iter().cloned()).collect(),
        TableStorage::Spilled(_) => vec![],
    }
}

fn find_table<'a>(store: &'a Triplestore, p: &str) -> &'a TripleTable {
    store.tables().iter().find(|t| t.predicate == p).expect("bucket")
}

fn total_rows(store: &Triplestore) -> usize {
    store.tables().iter().map(|t| rows_of(t).len()).sum()
}

#[test]
fn scenario_a_single_triple_template() {
    let mut m = scenario_a_mapping();
    m.expand(&"http://example.org/T".to_string(), scenario_a_batch(), ExpandOptions::default()).unwrap();
    assert_eq!(m.triplestore.tables().len(), 1);
    let t = find_table(&m.triplestore, "http://example.org/p");
    assert!(matches!(t.object_type, RDFNodeType::IRI));
    let rows = rows_of(t);
    assert_eq!(rows, vec![vec![iri("a"), iri("x")], vec![iri("b"), iri("y")]]);
}

#[test]
fn prefixed_template_name_resolves() {
    let mut m = scenario_a_mapping();
    m.expand(&"ex:T".to_string(), scenario_a_batch(), ExpandOptions::default()).unwrap();
    assert_eq!(total_rows(&m.triplestore), 2);
}

#[test]
fn unknown_template_is_reported() {
    let mut m = scenario_a_mapping();
    let r = m.expand(&"http://example.org/Nope".to_string(), scenario_a_batch(), ExpandOptions::default());
    assert!(matches!(r, Err(MappingError::TemplateNotFound(_))));
    let r = m.expand(&"ex:Nope".to_string(), scenario_a_batch(), ExpandOptions::default());
    match r {
        Err(MappingError::NoTemplateForPrefix(p, n)) => {
            assert_eq!(p, "ex");
            assert_eq!(n, "http://example.org/Nope");
        },
        _ => panic!("expected a prefix error"),
    }
    assert_eq!(m.triplestore.tables().len(), 0);
}

#[test]
fn missing_parameter_column_is_reported() {
    let mut m = scenario_a_mapping();
    let b = batch(&["s"], vec![vec![iri("a")]]);
    let r = m.expand(&"http://example.org/T".to_string(), b, ExpandOptions::default());
    match r {
        Err(MappingError::MissingParameterColumn(c)) => assert_eq!(c, "o"),
        _ => panic!("expected a missing column"),
    }
}

#[test]
fn unknown_variable_is_reported() {
    let t = template(
        "http://example.org/T",
        &["s", "o"],
        vec![triple(var("s"), const_iri("http://example.org/p"), var("zzz"))],
    );
    let mut m = Mapping::new(dataset(vec![t]), None);
    let r = m.expand(&"http://example.org/T".to_string(), scenario_a_batch(), ExpandOptions::default());
    assert!(matches!(r, Err(MappingError::UnknownVariable(v)) if v == "zzz"));
}

#[test]
fn column_type_mismatch_is_reported() {
    let mut t = template(
        "http://example.org/T",
        &["s", "o"],
        vec![triple(var("s"), const_iri("http://example.org/p"), var("o"))],
    );
    t.signature.parameter_list[1].ptype = Some(PType::Basic(
        "http://www.w3.org/2001/XMLSchema#string".to_string(),
        "xsd:string".to_string(),
    ));
    let mut m = Mapping::new(dataset(vec![t]), None);
    let b = batch(&["s", "o"], vec![vec![iri("a"), int_cell(3)]]);
    let r = m.expand(&"http://example.org/T".to_string(), b, ExpandOptions::default());
    assert!(matches!(r, Err(MappingError::ColumnTypeMismatch(c, RDFNodeType::Literal(dt), PType::Basic(d, _)))
        if c == "o" && dt == "http://www.w3.org/2001/XMLSchema#long" && d == "http://www.w3.org/2001/XMLSchema#string"));
}

#[test]
fn constant_wrong_type_is_reported() {
    let mut inner = template("http://example.org/U", &["s", "o"], vec![triple(var("s"), const_iri("http://example.org/p"), var("o"))]);
    inner.signature.parameter_list[1].ptype = Some(PType::Basic(
        "http://www.w3.org/2001/XMLSchema#long".to_string(),
        "xsd:long".to_string(),
    ));
    let mut call = Instance {
        template_name: "http://example.org/U".to_string(),
        argument_list: vec![var("s"), const_iri("http://example.org/c")],
        list_expander: Some(ListExpanderType::Cross),
    };
    call.argument_list[1].list_expand = true;
    let outer = template("http://example.org/T", &["s"], vec![call]);
    let mut m = Mapping::new(dataset(vec![inner, outer]), None);
    let b = batch(&["s"], vec![vec![iri("a")]]);
    let r = m.expand(&"http://example.org/T".to_string(), b, ExpandOptions::default());
    assert!(matches!(r, Err(MappingError::ConstantWrongType(p, ConstantTerm::Constant(ConstantLiteral::Iri(c)), Some(PType::Basic(..))))
        if p == "o" && c == "http://example.org/c"));
}

#[test]
fn invalid_predicate_constant_is_reported() {
    let lit = Argument {
        term: StottrTerm::ConstantTerm(ConstantTerm::Constant(ConstantLiteral::Literal {
            value: "v".to_string(),
            data_type: "http://www.w3.org/2001/XMLSchema#string".to_string(),
            language: None,
        })),
        list_expand: false,
    };
    let t = template("http://example.org/T", &["s", "o"], vec![triple(var("s"), lit, var("o"))]);
    let mut m = Mapping::new(dataset(vec![t]), None);
    let r = m.expand(&"http://example.org/T".to_string(), scenario_a_batch(), ExpandOptions::default());
    assert!(matches!(r, Err(MappingError::InvalidPredicateConstant(ConstantTerm::Constant(ConstantLiteral::Literal { value, .. }))) if value == "v"));
    assert_eq!(m.triplestore.tables().len(), 0);
}

#[test]
fn list_outside_expander_is_reported() {
    let list = Argument {
        term: StottrTerm::ConstantTerm(ConstantTerm::ConstantList(vec![ConstantLiteral::Iri("x".to_string())])),
        list_expand: false,
    };
    let t = template("http://example.org/T", &["s"], vec![triple(var("s"), const_iri("http://example.org/p"), list)]);
    let mut m = Mapping::new(dataset(vec![t]), None);
    let b = batch(&["s"], vec![vec![iri("a")]]);
    let r = m.expand(&"http://example.org/T".to_string(), b, ExpandOptions::default());
    assert!(matches!(r, Err(MappingError::ListOutsideExpander(p)) if p == "object"));
}

#[test]
fn list_argument_is_refused() {
    let arg = Argument { term: StottrTerm::List(vec![]), list_expand: false };
    let t = template("http://example.org/T", &["s"], vec![triple(var("s"), const_iri("http://example.org/p"), arg)]);
    let mut m = Mapping::new(dataset(vec![t]), None);
    let b = batch(&["s"], vec![vec![iri("a")]]);
    let r = m.expand(&"http://example.org/T".to_string(), b, ExpandOptions::default());
    assert!(matches!(r, Err(MappingError::ListArgumentUnsupported(_))));
}

#[test]
fn cyclic_templates_stop() {
    let call = Instance { template_name: "http://example.org/T".to_string(), argument_list: vec![var("s")], list_expander: None };
    let t = template("http://example.org/T", &["s"], vec![call]);
    let mut m = Mapping::new(dataset(vec![t]), None);
    let b = batch(&["s"], vec![vec![iri("a")]]);
    let r = m.expand(&"http://example.org/T".to_string(), b, ExpandOptions::default());
    assert!(matches!(r, Err(MappingError::TemplateNestingTooDeep(_))));
}

#[test]
fn scenario_b_cross_list_expansion() {
    let call = Instance {
        template_name: TRIPLE.to_string(),
        argument_list: vec![var("s"), const_iri("http://example.org/p"), var_expanded("o")],
        list_expander: Some(ListExpanderType::Cross),
    };
    let t = template("http://example.org/T", &["s", "o"], vec![call]);
    let mut m = Mapping::new(dataset(vec![t]), None);
    let list = Value::List(vec![Scalar::Iri("x".into()), Scalar::Iri("y".into()), Scalar::Iri("z".into())]);
    let b = batch(&["s", "o"], vec![vec![iri("a"), list]]);
    m.expand(&"http://example.org/T".to_string(), b, ExpandOptions::default()).unwrap();
    let rows = rows_of(find_table(&m.triplestore, "http://example.org/p"));
    assert_eq!(rows, vec![vec![iri("a"), iri("x")], vec![iri("a"), iri("y")], vec![iri("a"), iri("z")]]);
}

fn zip_call(le: ListExpanderType) -> (Instance, Vec<Parameter>) {
    let inst = Instance {
        template_name: "http://example.org/U".to_string(),
        argument_list: vec![var("s"), var_expanded("o1"), var_expanded("o2")],
        list_expander: Some(le),
    };
    (inst, vec![param("s"), param("a"), param("b")])
}

fn zip_input() -> (Batch, Vec<(String, stottrs::model::PrimitiveColumn)>) {
    let l1 = Value::List(vec![Scalar::Iri("x".into()), Scalar::Iri("y".into())]);
    let l2 = Value::List(vec![Scalar::Iri("p".into()), Scalar::Iri("q".into()), Scalar::Iri("r".into())]);
    let b = batch(&["s", "o1", "o2"], vec![vec![iri("a"), l1, l2]]);
    let col = |n: &str| (n.to_string(), stottrs::model::PrimitiveColumn { rdf_node_type: RDFNodeType::IRI, language_tag: None });
    (b, vec![col("s"), col("o1"), col("o2")])
}

#[test]
fn scenario_c_zip_min_and_zip_max() {
    let (b, d) = zip_input();
    let (inst, ps) = zip_call(ListExpanderType::ZipMin);
    let (out, _, _, _) = create_remapped(&inst, &ps, &b, &d, &vec![], &vec![]).ok().unwrap();
    assert_eq!(out.rows.len(), 2);
    assert_eq!(out.names, vec!["s".to_string(), "a".to_string(), "b".to_string()]);
    assert_eq!(out.rows[1], vec![iri("a"), iri("y"), iri("q")]);
    let (inst, ps) = zip_call(ListExpanderType::ZipMax);
    let (out, _, _, _) = create_remapped(&inst, &ps, &b, &d, &vec![], &vec![]).ok().unwrap();
    assert_eq!(out.rows.len(), 3);
    assert_eq!(out.rows[2], vec![iri("a"), Value::Null, iri("r")]);
    let (inst, ps) = zip_call(ListExpanderType::Cross);
    let (out, _, _, _) = create_remapped(&inst, &ps, &b, &d, &vec![], &vec![]).ok().unwrap();
    assert_eq!(out.rows.len(), 6);
}

#[test]
fn single_list_column_expanders_agree() {
    let (b, d) = zip_input();
    let mut results = vec![];
    for le in [ListExpanderType::Cross, ListExpanderType::ZipMin, ListExpanderType::ZipMax] {
        let inst = Instance {
            template_name: "http://example.org/U".to_string(),
            argument_list: vec![var("s"), var_expanded("o2")],
            list_expander: Some(le),
        };
        let ps = vec![param("s"), param("b")];
        let (out, _, _, _) = create_remapped(&inst, &ps, &b, &d, &vec![], &vec![]).ok().unwrap();
        results.push(out.rows);
    }
    assert_eq!(results[0].len(), 3);
    assert_eq!(results[0], results[1]);
    assert_eq!(results[1], results[2]);
}

#[test]
fn unique_subsets_are_renamed_into_the_callee() {
    let inst = Instance {
        template_name: "http://example.org/U".to_string(),
        argument_list: vec![var("s"), var("o1")],
        list_expander: None,
    };
    let ps = vec![param("x"), param("y")];
    let (b, d) = zip_input();
    let subsets = vec![vec!["s".to_string()], vec!["s".to_string(), "o2".to_string()]];
    let (_, _, _, u) = create_remapped(&inst, &ps, &b, &d, &vec![], &subsets).ok().unwrap();
    assert_eq!(u, vec![vec!["x".to_string()]]);
}

#[test]
fn scenario_d_deduplication_across_calls() {
    let mut m = scenario_a_mapping();
    let name = "http://example.org/T".to_string();
    m.expand(&name, scenario_a_batch(), ExpandOptions::default()).unwrap();
    assert!(m.triplestore.is_deduplicated());
    m.expand(&name, scenario_a_batch(), ExpandOptions::default()).unwrap();
    assert_eq!(total_rows(&m.triplestore), 4);
    assert!(!m.triplestore.is_deduplicated());
    m.triplestore.deduplicate();
    assert!(m.triplestore.is_deduplicated());
    assert_eq!(total_rows(&m.triplestore), 2);
    let rows = rows_of(find_table(&m.triplestore, "http://example.org/p"));
    assert_eq!(rows, vec![vec![iri("a"), iri("x")], vec![iri("b"), iri("y")]]);
    m.triplestore.deduplicate();
    assert_eq!(total_rows(&m.triplestore), 2);
}

#[test]
fn unique_subset_skips_the_unique_pass_within_a_call() {
    let mut m = scenario_a_mapping();
    let b = batch(&["s", "o"], vec![vec![iri("a"), iri("x")], vec![iri("a"), iri("x")]]);
    let opts = ExpandOptions { language_tags: None, unique_subsets: Some(vec![vec!["s".to_string()]]) };
    m.expand(&"http://example.org/T".to_string(), b, opts).unwrap();
    assert_eq!(total_rows(&m.triplestore), 2);
    let b = batch(&["s", "o"], vec![vec![iri("a"), iri("x")], vec![iri("a"), iri("x")]]);
    let mut m2 = scenario_a_mapping();
    m2.expand(&"http://example.org/T".to_string(), b, ExpandOptions::default()).unwrap();
    assert_eq!(total_rows(&m2.triplestore), 1);
}

#[test]
fn flat_template_emits_rows_times_patterns() {
    let t = template(
        "http://example.org/T",
        &["s", "o"],
        vec![
            triple(var("s"), const_iri("http://example.org/p"), var("o")),
            triple(var("s"), const_iri("http://example.org/q"), var("o")),
        ],
    );
    let mut m = Mapping::new(dataset(vec![t]), None);
    let b = batch(&["s", "o"], vec![vec![iri("a"), iri("x")], vec![iri("b"), iri("y")], vec![iri("c"), iri("z")]]);
    m.expand(&"http://example.org/T".to_string(), b, ExpandOptions::default()).unwrap();
    assert_eq!(total_rows(&m.triplestore), 6);
}

#[test]
fn expansion_is_deterministic() {
    let mut m1 = scenario_a_mapping();
    let mut m2 = scenario_a_mapping();
    let name = "http://example.org/T".to_string();
    m1.expand(&name, scenario_a_batch(), ExpandOptions::default()).unwrap();
    m2.expand(&name, scenario_a_batch(), ExpandOptions::default()).unwrap();
    let a: Vec<_> = m1.triplestore.tables().iter().map(|t| (t.predicate.clone(), rows_of(t))).collect();
    let b: Vec<_> = m2.triplestore.tables().iter().map(|t| (t.predicate.clone(), rows_of(t))).collect();
    assert_eq!(a, b);
}

#[test]
fn string_objects_get_a_language_tag_column() {
    let mut m = scenario_a_mapping();
    let b = batch(&["s", "o"], vec![vec![iri("a"), Value::Item(Scalar::Text("hei".into()))]]);
    let opts = ExpandOptions { language_tags: Some(vec![("o".to_string(), "no".to_string())]), unique_subsets: None };
    m.expand(&"http://example.org/T".to_string(), b, opts).unwrap();
    let t = find_table(&m.triplestore, "http://example.org/p");
    assert!(matches!(&t.object_type, RDFNodeType::Literal(dt) if dt == "http://www.w3.org/2001/XMLSchema#string"));
    assert_eq!(rows_of(t), vec![vec![iri("a"), Value::Item(Scalar::Text("hei".into())), Value::Item(Scalar::Text("no".into()))]]);
}

#[test]
fn null_cells_are_dropped() {
    let mut m = scenario_a_mapping();
    let b = batch(&["s", "o"], vec![vec![iri("a"), Value::Null], vec![iri("b"), iri("y")]]);
    m.expand(&"http://example.org/T".to_string(), b, ExpandOptions::default()).unwrap();
    assert_eq!(total_rows(&m.triplestore), 1);
}

#[test]
fn spilling_store_keeps_paths_only() {
    let mut m = Mapping::new(scenario_a_mapping().template_dataset, Some("/tmp/spill".to_string()));
    let rep = m.expand(&"http://example.org/T".to_string(), scenario_a_batch(), ExpandOptions::default()).unwrap();
    assert_eq!(m.triplestore.tables().len(), 0);
    assert_eq!(rep.pending.len(), 1);
    let p = &rep.pending[0];
    let name = format!("/tmp/spill/{}_{}.parquet", property_to_filename(&p.predicate), rep.call_uuid);
    assert!(m.triplestore.add_spilled_file(name.clone(), &p.predicate, &p.object_type, &rep.call_uuid));
    let t = find_table(&m.triplestore, "http://example.org/p");
    assert!(matches!(&t.storage, TableStorage::Spilled(ps) if ps == &vec![name.clone()]));
    let mut mem = Triplestore::new(None);
    assert!(!mem.add_spilled_file(name, &p.predicate, &p.object_type, &rep.call_uuid));
    assert_eq!(mem.tables().len(), 0);
}

#[test]
fn predicate_file_names_are_sanitized() {
    assert_eq!(property_to_filename(&"http://ex.org/p#a-b_c".to_string()), "http___ex_org_p_a-b_c");
}

#[test]
fn default_template_expands_each_value_column() {
    let mut m = Mapping::new(dataset(vec![]), None);
    let b = batch(
        &["id", "name", "age"],
        vec![
            vec![Value::Item(Scalar::Text("http://ex.org/1".into())), Value::Item(Scalar::Text("Ann".into())), int_cell(30)],
            vec![Value::Item(Scalar::Text("http://ex.org/2".into())), Value::Item(Scalar::Text("Bo".into())), int_cell(40)],
        ],
    );
    let (t, _) = m.expand_default(b, "id".to_string(), vec![], None, None, ExpandOptions::default()).ok().unwrap();
    assert_eq!(t.pattern_list.len(), 2);
    assert!(t.signature.template_name.starts_with("http://example.net/ns#"));
    assert_eq!(m.template_dataset.templates.len(), 1);
    let name = find_table(&m.triplestore, "http://example.net/ns/predicate#name");
    assert_eq!(rows_of(name)[0][0], iri("http://ex.org/1"));
    let age = find_table(&m.triplestore, "http://example.net/ns/predicate#age");
    assert!(matches!(&age.object_type, RDFNodeType::Literal(dt) if dt == "http://www.w3.org/2001/XMLSchema#long"));
    assert_eq!(rows_of(age).len(), 2);
}

#[test]
fn default_template_rejects_an_invalid_predicate_prefix() {
    let mut m = Mapping::new(dataset(vec![]), None);
    let b = batch(&["id", "name"], vec![vec![Value::Item(Scalar::Text("http://ex.org/1".into())), int_cell(1)]]);
    let r = m.expand_default(b, "id".to_string(), vec![], None, Some("not an iri ".to_string()), ExpandOptions::default());
    assert!(matches!(r, Err(MappingError::InvalidIri(s)) if s == "not an iri name"));
    assert_eq!(m.template_dataset.templates.len(), 0);
}

#[test]
fn default_template_rejects_non_text_keys() {
    let mut m = Mapping::new(dataset(vec![]), None);
    let b = batch(&["id", "name"], vec![vec![int_cell(1), int_cell(2)]]);
    let r = m.expand_default(b, "id".to_string(), vec![], None, None, ExpandOptions::default());
    assert!(matches!(r, Err(MappingError::ColumnTypeMismatch(c, RDFNodeType::Literal(dt), PType::Basic(d, _)))
        if c == "id" && dt == "http://www.w3.org/2001/XMLSchema#long" && d == "http://www.w3.org/2001/XMLSchema#anyURI"));
}

fn tvar(s: &str) -> TermPattern {
    TermPattern::Variable(s.to_string())
}

fn tiri(s: &str) -> TermPattern {
    TermPattern::Iri(s.to_string())
}

fn scenario_e_store() -> Mapping {
    let t = template("http://example.org/T", &["s", "o"], vec![triple(var("s"), const_iri("p"), var("o"))]);
    let mut m = Mapping::new(dataset(vec![t]), None);
    let b = batch(&["s", "o"], vec![vec![iri("a"), int_cell(1)], vec![iri("a"), int_cell(2)], vec![iri("b"), int_cell(3)]]);
    m.expand(&"http://example.org/T".to_string(), b, ExpandOptions::default()).unwrap();
    m
}

fn select_s_where_o_gt_1() -> Query {
    let bgp = GraphPattern::Bgp(vec![TriplePattern { subject: tvar("s"), predicate: tiri("p"), object: tvar("o") }]);
    let filter = GraphPattern::Filter(
        Expression::Greater(Box::new(Expression::Variable("o".into())), Box::new(Expression::Literal(Scalar::Int(1)))),
        Box::new(bgp),
    );
    Query::Select(GraphPattern::Project(Box::new(filter), vec!["s".to_string()]))
}

#[test]
fn scenario_e_select_with_filter() {
    let mut m = scenario_e_store();
    match m.triplestore.query(&select_s_where_o_gt_1()).ok().unwrap() {
        QueryResult::Select(b) => {
            assert_eq!(b.names, vec!["s".to_string()]);
            assert_eq!(b.rows, vec![vec![iri("a")], vec![iri("b")]]);
        },
        _ => panic!("expected a selection"),
    }
}

#[test]
fn distinct_and_slice() {
    let mut m = scenario_e_store();
    let bgp = GraphPattern::Bgp(vec![TriplePattern { subject: tvar("s"), predicate: tiri("p"), object: tvar("o") }]);
    let proj = GraphPattern::Project(Box::new(bgp), vec!["s".to_string()]);
    let q = Query::Select(GraphPattern::Slice(Box::new(GraphPattern::Distinct(Box::new(proj))), 1, Some(5)));
    match m.triplestore.query(&q).ok().unwrap() {
        QueryResult::Select(b) => assert_eq!(b.rows, vec![vec![iri("b")]]),
        _ => panic!("expected a selection"),
    }
}

#[test]
fn projection_of_unknown_variable_fails() {
    let mut m = scenario_e_store();
    let bgp = GraphPattern::Bgp(vec![TriplePattern { subject: tvar("s"), predicate: tiri("p"), object: tvar("o") }]);
    let q = Query::Select(GraphPattern::Project(Box::new(bgp), vec!["nope".to_string()]));
    assert!(matches!(m.triplestore.query(&q), Err(SparqlError::VariableNotFound(v, _)) if v == "nope"));
}

#[test]
fn ask_is_not_supported() {
    let mut m = scenario_e_store();
    let q = Query::Ask(GraphPattern::Bgp(vec![]));
    assert!(matches!(m.triplestore.query(&q), Err(SparqlError::QueryTypeNotSupported)));
    assert!(matches!(m.triplestore.construct_update(&q), Err(SparqlError::QueryTypeNotSupported)));
}

#[test]
fn union_with_conflicting_types_fails() {
    let t = template(
        "http://example.org/T",
        &["s", "o", "n"],
        vec![triple(var("s"), const_iri("p"), var("o")), triple(var("s"), const_iri("q"), var("n"))],
    );
    let mut m = Mapping::new(dataset(vec![t]), None);
    let b = batch(&["s", "o", "n"], vec![vec![iri("a"), iri("x"), int_cell(5)]]);
    m.expand(&"http://example.org/T".to_string(), b, ExpandOptions::default()).unwrap();
    let left = GraphPattern::Bgp(vec![TriplePattern { subject: tvar("s"), predicate: tiri("p"), object: tvar("o") }]);
    let right = GraphPattern::Bgp(vec![TriplePattern { subject: tvar("s"), predicate: tiri("q"), object: tvar("o") }]);
    let q = Query::Select(GraphPattern::Union(Box::new(left), Box::new(right)));
    assert!(matches!(m.triplestore.query(&q), Err(SparqlError::InconsistentDatatypes(v, _, _, _)) if v == "o"));
}

#[test]
fn union_and_left_join() {
    let t = template(
        "http://example.org/T",
        &["s", "o", "n"],
        vec![triple(var("s"), const_iri("p"), var("o")), triple(var("s"), const_iri("q"), var("n"))],
    );
    let mut m = Mapping::new(dataset(vec![t]), None);
    let b = batch(&["s", "o", "n"], vec![vec![iri("a"), iri("x"), int_cell(5)], vec![iri("b"), iri("y"), Value::Null]]);
    m.expand(&"http://example.org/T".to_string(), b, ExpandOptions::default()).unwrap();
    let p = GraphPattern::Bgp(vec![TriplePattern { subject: tvar("s"), predicate: tiri("p"), object: tvar("o") }]);
    let q = GraphPattern::Bgp(vec![TriplePattern { subject: tvar("s"), predicate: tiri("q"), object: tvar("n") }]);
    let lj = Query::Select(GraphPattern::LeftJoin(Box::new(p), Box::new(q), None));
    match m.triplestore.query(&lj).ok().unwrap() {
        QueryResult::Select(r) => {
            assert_eq!(r.names, vec!["s".to_string(), "o".to_string(), "n".to_string()]);
            assert_eq!(r.rows, vec![vec![iri("a"), iri("x"), int_cell(5)], vec![iri("b"), iri("y"), Value::Null]]);
        },
        _ => panic!("expected a selection"),
    }
    let p = GraphPattern::Bgp(vec![TriplePattern { subject: tvar("s"), predicate: tiri("p"), object: tvar("o") }]);
    let q = GraphPattern::Bgp(vec![TriplePattern { subject: tvar("s"), predicate: tiri("q"), object: tvar("n") }]);
    let u = Query::Select(GraphPattern::Union(Box::new(p), Box::new(q)));
    match m.triplestore.query(&u).ok().unwrap() {
        QueryResult::Select(r) => {
            assert_eq!(r.names.len(), 3);
            assert_eq!(r.rows.len(), 3);
            assert_eq!(r.rows[2], vec![iri("a"), Value::Null, int_cell(5)]);
        },
        _ => panic!("expected a selection"),
    }
}

#[test]
fn scenario_f_construct_update() {
    let mut m = scenario_a_mapping();
    m.expand(&"http://example.org/T".to_string(), scenario_a_batch(), ExpandOptions::default()).unwrap();
    let tmpl = vec![TriplePattern { subject: tvar("s"), predicate: tiri("http://example.org/q"), object: tvar("o") }];
    let wher = GraphPattern::Bgp(vec![TriplePattern { subject: tvar("s"), predicate: tiri("http://example.org/p"), object: tvar("o") }]);
    m.triplestore.construct_update(&Query::Construct(tmpl, wher)).ok().unwrap();
    let t = find_table(&m.triplestore, "http://example.org/q");
    assert!(matches!(t.object_type, RDFNodeType::IRI));
    assert_eq!(rows_of(t), vec![vec![iri("a"), iri("x")], vec![iri("b"), iri("y")]]);
    let sel = Query::Select(GraphPattern::Bgp(vec![TriplePattern { subject: tvar("s"), predicate: tiri("http://example.org/q"), object: tvar("o") }]));
    match m.triplestore.query(&sel).ok().unwrap() {
        QueryResult::Select(r) => assert_eq!(r.rows.len(), 2),
        _ => panic!("expected a selection"),
    }
}

#[test]
fn query_over_empty_store_has_no_rows() {
    let mut store = Triplestore::new(None);
    let bgp = GraphPattern::Bgp(vec![TriplePattern { subject: tvar("s"), predicate: tvar("p"), object: tvar("o") }]);
    let q = Query::Select(GraphPattern::Project(Box::new(bgp), vec!["s".into(), "p".into(), "o".into()]));
    match store.query(&q).ok().unwrap() {
        QueryResult::Select(r) => assert_eq!(r.rows.len(), 0),
        _ => panic!("expected a selection"),
    }
}

#[test]
fn variable_predicate_binds_bucket_keys() {
    let mut m = scenario_a_mapping();
    m.expand(&"http://example.org/T".to_string(), scenario_a_batch(), ExpandOptions::default()).unwrap();
    let q = Query::Select(GraphPattern::Bgp(vec![TriplePattern { subject: tvar("s"), predicate: tvar("p"), object: tiri("y") }]));
    match m.triplestore.query(&q).ok().unwrap() {
        QueryResult::Select(r) => assert_eq!(r.rows, vec![vec![iri("b"), iri("http://example.org/p")]]),
        _ => panic!("expected a selection"),
    }
}

#[test]
fn n_triples_of_iris() {
    let mut m = scenario_a_mapping();
    m.expand(&"http://example.org/T".to_string(), scenario_a_batch(), ExpandOptions::default()).unwrap();
    let mut out = String::new();
    m.write_n_triples(&mut out);
    assert_eq!(out, "<a> <http://example.org/p> <x> .\n<b> <http://example.org/p> <y> .\n");
}

#[test]
fn n_triples_of_literals() {
    let mut m = scenario_a_mapping();
    let b = batch(
        &["s", "o"],
        vec![vec![iri("a"), int_cell(-42)], vec![iri("b"), int_cell(7)]],
    );
    m.expand(&"http://example.org/T".to_string(), b, ExpandOptions::default()).unwrap();
    let mut out = String::new();
    m.write_n_triples(&mut out);
    assert_eq!(
        out,
        "<a> <http://example.org/p> \"-42\"^^<http://www.w3.org/2001/XMLSchema#long> .\n<b> <http://example.org/p> \"7\"^^<http://www.w3.org/2001/XMLSchema#long> .\n"
    );
}

#[test]
fn n_triples_escape_and_tag_strings() {
    let mut m = scenario_a_mapping();
    let b = batch(&["s", "o"], vec![vec![iri("a"), Value::Item(Scalar::Text("say \"hi\"\n".into()))]]);
    m.expand(&"http://example.org/T".to_string(), b, ExpandOptions::default()).unwrap();
    let mut out = String::new();
    m.write_n_triples(&mut out);
    assert_eq!(out, "<a> <http://example.org/p> \"say \\\"hi\\\"\\n\" .\n");
    let mut m = scenario_a_mapping();
    let b = batch(&["s", "o"], vec![vec![iri("a"), Value::Item(Scalar::Text("hei".into()))]]);
    let opts = ExpandOptions { language_tags: Some(vec![("o".to_string(), "no".to_string())]), unique_subsets: None };
    m.expand(&"http://example.org/T".to_string(), b, opts).unwrap();
    let mut out = String::new();
    m.write_n_triples(&mut out);
    assert_eq!(out, "<a> <http://example.org/p> \"hei\"@no .\n");
}

#[test]
fn order_by_sorts_stably_in_each_direction() {
    let mut m = scenario_e_store();
    let bgp = GraphPattern::Bgp(vec![TriplePattern { subject: tvar("s"), predicate: tiri("p"), object: tvar("o") }]);
    let q = Query::Select(GraphPattern::OrderBy(Box::new(bgp), vec![OrderExpression::Desc(Expression::Variable("o".into()))]));
    match m.triplestore.query(&q).ok().unwrap() {
        QueryResult::Select(r) => {
            let os: Vec<Value> = r.rows.iter().map(|row| row[1].clone()).collect();
            assert_eq!(os, vec![int_cell(3), int_cell(2), int_cell(1)]);
        },
        _ => panic!("expected a selection"),
    }
    let bgp = GraphPattern::Bgp(vec![TriplePattern { subject: tvar("s"), predicate: tiri("p"), object: tvar("o") }]);
    let q = Query::Select(GraphPattern::OrderBy(Box::new(bgp), vec![OrderExpression::Desc(Expression::Variable("s".into()))]));
    match m.triplestore.query(&q).ok().unwrap() {
        QueryResult::Select(r) => {
            assert_eq!(r.rows, vec![vec![iri("b"), int_cell(3)], vec![iri("a"), int_cell(1)], vec![iri("a"), int_cell(2)]]);
        },
        _ => panic!("expected a selection"),
    }
}

#[test]
fn minus_removes_compatible_rows() {
    let mut m = scenario_e_store();
    let all = GraphPattern::Bgp(vec![TriplePattern { subject: tvar("s"), predicate: tiri("p"), object: tvar("o") }]);
    let big = GraphPattern::Filter(
        Expression::Greater(Box::new(Expression::Variable("o".into())), Box::new(Expression::Literal(Scalar::Int(1)))),
        Box::new(GraphPattern::Bgp(vec![TriplePattern { subject: tvar("s"), predicate: tiri("p"), object: tvar("o") }])),
    );
    let q = Query::Select(GraphPattern::Minus(Box::new(all), Box::new(big)));
    match m.triplestore.query(&q).ok().unwrap() {
        QueryResult::Select(r) => assert_eq!(r.rows, vec![vec![iri("a"), int_cell(1)]]),
        _ => panic!("expected a selection"),
    }
}

#[test]
fn extend_binds_an_expression() {
    let mut m = scenario_e_store();
    let bgp = GraphPattern::Bgp(vec![TriplePattern { subject: tvar("s"), predicate: tiri("p"), object: tvar("o") }]);
    let e = Expression::Less(Box::new(Expression::Variable("o".into())), Box::new(Expression::Literal(Scalar::Int(2))));
    let q = Query::Select(GraphPattern::Extend(Box::new(bgp), "small".to_string(), e));
    match m.triplestore.query(&q).ok().unwrap() {
        QueryResult::Select(r) => {
            assert_eq!(r.names, vec!["s".to_string(), "o".to_string(), "small".to_string()]);
            let flags: Vec<Value> = r.rows.iter().map(|row| row[2].clone()).collect();
            let t = Value::Item(Scalar::Bool(true));
            let f = Value::Item(Scalar::Bool(false));
            assert_eq!(flags, vec![t, f.clone(), f]);
        },
        _ => panic!("expected a selection"),
    }
}

#[test]
fn table_accessors() {
    let mut m = scenario_a_mapping();
    m.expand(&"http://example.org/T".to_string(), scenario_a_batch(), ExpandOptions::default()).unwrap();
    let t = find_table(&m.triplestore, "http://example.org/p");
    assert_eq!(t.len(), 1);
    assert_eq!(t.get_df(0).unwrap().len(), 2);
    assert!(t.get_df(1).is_none());
    assert!(matches!(t.object_type.find_triple_type(), Some(stottrs::model::TripleType::ObjectProperty)));
    assert!(RDFNodeType::Literal("http://www.w3.org/2001/XMLSchema#boolean".into()).is_bool());
    assert!(!RDFNodeType::IRI.is_float());
}

#[test]
fn spilled_buckets_are_replaced_after_rewrite() {
    let mut store = Triplestore::new(Some("/tmp/spill".to_string()));
    let p = "http://example.org/p".to_string();
    assert!(store.add_spilled_file("f1".to_string(), &p, &RDFNodeType::IRI, &"call1".to_string()));
    assert!(store.add_spilled_file("f2".to_string(), &p, &RDFNodeType::IRI, &"call2".to_string()));
    assert!(!store.is_deduplicated());
    assert!(!store.replace_spilled_files(&p, &RDFNodeType::BlankNode, vec!["g".to_string()]));
    assert!(!store.replace_spilled_files(&p, &RDFNodeType::IRI, vec![]));
    assert!(store.replace_spilled_files(&p, &RDFNodeType::IRI, vec!["g".to_string()]));
    assert!(store.is_deduplicated());
    let t = find_table(&store, "http://example.org/p");
    assert!(matches!(&t.storage, TableStorage::Spilled(ps) if ps == &vec!["g".to_string()]));
}

#[test]
fn dedup_batches_keeps_first_occurrences() {
    let rows = stottrs::triplestore::dedup_batches(&vec![
        vec![vec![iri("a"), iri("x")], vec![iri("b"), iri("y")]],
        vec![vec![iri("a"), iri("x")], vec![iri("c"), iri("z")]],
    ]);
    assert_eq!(rows, vec![vec![iri("a"), iri("x")], vec![iri("b"), iri("y")], vec![iri("c"), iri("z")]]);
}

#[test]
fn arithmetic_and_if_expressions() {
    let mut m = scenario_e_store();
    let bgp = GraphPattern::Bgp(vec![TriplePattern { subject: tvar("s"), predicate: tiri("p"), object: tvar("o") }]);
    let o = || Box::new(Expression::Variable("o".into()));
    let lit = |i: i64| Box::new(Expression::Literal(Scalar::Int(i)));
    let e = Expression::If(
        Box::new(Expression::Greater(o(), lit(1))),
        Box::new(Expression::Multiply(o(), lit(10))),
        Box::new(Expression::Add(o(), lit(i64::MAX))),
    );
    let q = Query::Select(GraphPattern::Extend(Box::new(bgp), "x".to_string(), e));
    match m.triplestore.query(&q).ok().unwrap() {
        QueryResult::Select(r) => {
            let xs: Vec<Value> = r.rows.iter().map(|row| row[2].clone()).collect();
            assert_eq!(xs, vec![Value::Null, int_cell(20), int_cell(30)]);
        },
        _ => panic!("expected a selection"),
    }
}

#[test]
fn zip_expanders_agree_on_equal_lengths() {
    let l1 = Value::List(vec![Scalar::Iri("x".into()), Scalar::Iri("y".into())]);
    let l2 = Value::List(vec![Scalar::Iri("p".into()), Scalar::Iri("q".into())]);
    let b = batch(&["s", "o1", "o2"], vec![vec![iri("a"), l1, l2]]);
    let col = |n: &str| (n.to_string(), stottrs::model::PrimitiveColumn { rdf_node_type: RDFNodeType::IRI, language_tag: None });
    let d = vec![col("s"), col("o1"), col("o2")];
    let (imin, ps) = zip_call(ListExpanderType::ZipMin);
    let (imax, _) = zip_call(ListExpanderType::ZipMax);
    let (a, _, _, _) = create_remapped(&imin, &ps, &b, &d, &vec![], &vec![]).ok().unwrap();
    let (c, _, _, _) = create_remapped(&imax, &ps, &b, &d, &vec![], &vec![]).ok().unwrap();
    assert_eq!(a.rows.len(), 2);
    assert_eq!(a.rows, c.rows);
}

#[test]
fn group_by_with_aggregates() {
    let mut m = scenario_e_store();
    let bgp = GraphPattern::Bgp(vec![TriplePattern { subject: tvar("s"), predicate: tiri("p"), object: tvar("o") }]);
    let o = || Expression::Variable("o".into());
    let aggs = vec![
        ("n".to_string(), stottrs::sparql::Aggregate::Count(None)),
        ("total".to_string(), stottrs::sparql::Aggregate::Sum(o())),
        ("lo".to_string(), stottrs::sparql::Aggregate::Min(o())),
        ("hi".to_string(), stottrs::sparql::Aggregate::Max(o())),
        ("any".to_string(), stottrs::sparql::Aggregate::Sample(o())),
    ];
    let q = Query::Select(GraphPattern::Group(Box::new(bgp), vec!["s".to_string()], aggs));
    match m.triplestore.query(&q).ok().unwrap() {
        QueryResult::Select(r) => {
            assert_eq!(r.names, vec!["s", "n", "total", "lo", "hi", "any"].iter().map(|x| x.to_string()).collect::<Vec<_>>());
            assert_eq!(r.rows, vec![
                vec![iri("a"), int_cell(2), int_cell(3), int_cell(1), int_cell(2), int_cell(1)],
                vec![iri("b"), int_cell(1), int_cell(3), int_cell(3), int_cell(3), int_cell(3)],
            ]);
        },
        _ => panic!("expected a selection"),
    }
}

#[test]
fn spill_names_and_rewrite_list() {
    let name = stottrs::triplestore::spill_file_name(&"/tmp/s".to_string(), &"http://ex.org/p".to_string(), &"id1".to_string());
    assert_eq!(name, "/tmp/s/http___ex_org_p_id1.parquet");
    let mut store = Triplestore::new(Some("/tmp/s".to_string()));
    let p = "http://example.org/p".to_string();
    let q = "http://example.org/q".to_string();
    store.add_spilled_file("f1".to_string(), &p, &RDFNodeType::IRI, &"c1".to_string());
    store.add_spilled_file("f2".to_string(), &q, &RDFNodeType::IRI, &"c1".to_string());
    store.add_spilled_file("f3".to_string(), &q, &RDFNodeType::IRI, &"c2".to_string());
    assert_eq!(store.spilled_to_rewrite(), vec![1]);
}

#[test]
fn deduplicate_is_idempotent_on_a_clean_store() {
    let mut m = scenario_a_mapping();
    m.expand(&"http://example.org/T".to_string(), scenario_a_batch(), ExpandOptions::default()).unwrap();
    let before: Vec<_> = m.triplestore.tables().iter().map(|t| (t.predicate.clone(), rows_of(t), t.unique)).collect();
    m.triplestore.deduplicate();
    let after: Vec<_> = m.triplestore.tables().iter().map(|t| (t.predicate.clone(), rows_of(t), t.unique)).collect();
    assert_eq!(before, after);
}

#[test]
fn coalesce_str_and_datatype() {
    let mut m = scenario_e_store();
    let bgp = GraphPattern::Bgp(vec![TriplePattern { subject: tvar("s"), predicate: tiri("p"), object: tvar("o") }]);
    let e1 = Expression::Coalesce(Box::new(Expression::Variable("nope".into())), Box::new(Expression::Str(Box::new(Expression::Variable("o".into())))));
    let e2 = Expression::Datatype(Box::new(Expression::Variable("o".into())));
    let e3 = Expression::Str(Box::new(Expression::Variable("s".into())));
    let q = Query::Select(GraphPattern::Extend(
        Box::new(GraphPattern::Extend(Box::new(GraphPattern::Extend(Box::new(bgp), "a".into(), e1)), "b".into(), e2)),
        "c".into(),
        e3,
    ));
    match m.triplestore.query(&q).ok().unwrap() {
        QueryResult::Select(r) => {
            assert_eq!(r.rows[0][2], Value::Item(Scalar::Text("1".into())));
            assert_eq!(r.rows[0][3], iri("http://www.w3.org/2001/XMLSchema#long"));
            assert_eq!(r.rows[0][4], Value::Item(Scalar::Text("a".into())));
        },
        _ => panic!("expected a selection"),
    }
}

#[test]
fn group_concat_joins_texts() {
    let mut m = scenario_e_store();
    let bgp = GraphPattern::Bgp(vec![TriplePattern { subject: tvar("s"), predicate: tiri("p"), object: tvar("o") }]);
    let aggs = vec![("all".to_string(), stottrs::sparql::Aggregate::GroupConcat(Expression::Variable("o".into()), ", ".to_string()))];
    let q = Query::Select(GraphPattern::Group(Box::new(bgp), vec!["s".to_string()], aggs));
    match m.triplestore.query(&q).ok().unwrap() {
        QueryResult::Select(r) => {
            assert_eq!(r.rows, vec![
                vec![iri("a"), Value::Item(Scalar::Text("1, 2".into()))],
                vec![iri("b"), Value::Item(Scalar::Text("3".into()))],
            ]);
        },
        _ => panic!("expected a selection"),
    }
}
