//! Lowering template constants to column cells, and checking them against
//! declared parameter types.
use vstd::prelude::*;
use crate::value::{Scalar, ScalarV, Value, ValueV, scalars_view};
use crate::model::{
    RDFNodeType, NodeTypeV, PrimitiveColumn, PrimColV, ConstantLiteral, ConstantTerm, ConstTermV,
    PType, MappingError, MappingErrorV, opt_str_view, copy_opt_str, xsd_string_iri, ottr_iri_iri,
    xsd_any_uri_iri, rdfs_resource_iri, rdfs_literal_iri,
};

verus! {

/// Whether a basic declared type `t` admits values of node type `n`.
pub open spec fn basic_admits(t: Seq<char>, n: NodeTypeV) -> bool {
    match n {
        NodeTypeV::Unknown => true,
        NodeTypeV::IRI => t == ottr_iri_iri() || t == xsd_any_uri_iri() || t == rdfs_resource_iri(),
        NodeTypeV::BlankNode => t == ottr_iri_iri() || t == rdfs_resource_iri(),
        NodeTypeV::Literal(dt) => t == dt || t == rdfs_literal_iri() || t == rdfs_resource_iri(),
    }
}

/// Whether a declared type admits a column of node type `n`, whose cells
/// are lists when `is_list`.
pub open spec fn ptype_admits(p: PType, n: NodeTypeV, is_list: bool) -> bool
    decreases p,
{
    match p {
        PType::Basic(t, _) => !is_list && basic_admits(t@, n),
        PType::Lub(q) => ptype_admits(*q, n, is_list),
        PType::List(q) => is_list && ptype_admits(*q, n, false),
        PType::NonEmptyList(q) => is_list && ptype_admits(*q, n, false),
    }
}

pub open spec fn opt_ptype_admits(p: Option<PType>, n: NodeTypeV, is_list: bool) -> bool {
    match p {
        Some(q) => ptype_admits(q, n, is_list),
        None => true,
    }
}

fn basic_admits_exec(t: &String, n: &RDFNodeType) -> (r: bool)
    ensures
        r == basic_admits(t@, n@),
{
    let ottr_iri = String::from_str("http://ns.ottr.xyz/0.4/IRI");
    let any_uri = String::from_str("http://www.w3.org/2001/XMLSchema#anyURI");
    let resource = String::from_str("http://www.w3.org/2000/01/rdf-schema#Resource");
    let literal = String::from_str("http://www.w3.org/2000/01/rdf-schema#Literal");
    match n {
        RDFNodeType::Unknown => true,
        RDFNodeType::IRI => t.eq(&ottr_iri) || t.eq(&any_uri) || t.eq(&resource),
        RDFNodeType::BlankNode => t.eq(&ottr_iri) || t.eq(&resource),
        RDFNodeType::Literal(dt) => t.eq(dt) || t.eq(&literal) || t.eq(&resource),
    }
}

pub fn ptype_admits_exec(p: &PType, n: &RDFNodeType, is_list: bool) -> (r: bool)
    ensures
        r == ptype_admits(*p, n@, is_list),
    decreases p,
{
    match p {
        PType::Basic(t, _) => !is_list && basic_admits_exec(t, n),
        PType::Lub(q) => ptype_admits_exec(q, n, is_list),
        PType::List(q) => is_list && ptype_admits_exec(q, n, false),
        PType::NonEmptyList(q) => is_list && ptype_admits_exec(q, n, false),
    }
}

pub fn opt_ptype_admits_exec(p: &Option<PType>, n: &RDFNodeType, is_list: bool) -> (r: bool)
    ensures
        r == opt_ptype_admits(*p, n@, is_list),
{
    match p {
        Some(q) => ptype_admits_exec(q, n, is_list),
        None => true,
    }
}

/// The cell, node type and language tag of a single constant.
pub open spec fn literal_cell(c: ConstantLiteral) -> (ValueV, NodeTypeV, Option<Seq<char>>) {
    match c {
        ConstantLiteral::Iri(s) => (ValueV::Item(ScalarV::Iri(s@)), NodeTypeV::IRI, None),
        ConstantLiteral::BlankNode(s) => (ValueV::Item(ScalarV::Text(s@)), NodeTypeV::BlankNode, None),
        ConstantLiteral::Literal { value, data_type, language } => (
            ValueV::Item(ScalarV::Text(value@)),
            NodeTypeV::Literal(data_type@),
            if data_type@ == xsd_string_iri() { opt_str_view(language) } else { None },
        ),
        ConstantLiteral::NoValue => (ValueV::Null, NodeTypeV::Unknown, None),
    }
}

/// The element of a list constant.
pub open spec fn list_item(c: ConstantLiteral) -> ScalarV {
    match c {
        ConstantLiteral::Iri(s) => ScalarV::Iri(s@),
        ConstantLiteral::BlankNode(s) => ScalarV::Text(s@),
        ConstantLiteral::Literal { value, .. } => ScalarV::Text(value@),
        ConstantLiteral::NoValue => ScalarV::Text(seq![]),
    }
}

/// Whether every item of a list constant is a value of node type `n`.
pub open spec fn items_have_type(items: Seq<ConstantLiteral>, n: NodeTypeV) -> bool {
    forall|k: int| 0 <= k < items.len() ==> !(#[trigger] items[k] is NoValue) && literal_cell(items[k]).1 == n
}

/// The node type of a list constant: that of its first item (unknown when empty).
pub open spec fn list_type(items: Seq<ConstantLiteral>) -> NodeTypeV {
    if items.len() == 0 { NodeTypeV::Unknown } else { literal_cell(items[0]).1 }
}

/// The language tag of a list constant of strings: that of its first item.
pub open spec fn list_tag(items: Seq<ConstantLiteral>) -> Option<Seq<char>> {
    if items.len() == 0 { None } else { literal_cell(items[0]).2 }
}

/// A constant lowered to a cell repeated on every row, with its column type.
/// A list is only lowered for a list expander; its items must share a type.
pub open spec fn lower_spec(ct: ConstTermV, ptype: Option<PType>, in_expander: bool, param: Seq<char>) -> Result<(ValueV, PrimColV), MappingErrorV> {
    match ct {
        ConstTermV::Constant(c) => {
            let (cell, n, lang) = literal_cell(c);
            if opt_ptype_admits(ptype, n, false) {
                Ok((cell, PrimColV { rdf_node_type: n, language_tag: lang }))
            } else {
                Err(MappingErrorV::ConstantWrongType(param, ct, ptype))
            }
        },
        ConstTermV::ConstantList(items) => {
            if !in_expander {
                Err(MappingErrorV::ListOutsideExpander(param))
            } else if items_have_type(items, list_type(items)) && opt_ptype_admits(ptype, list_type(items), true) {
                Ok((
                    ValueV::List(items.map_values(|c: ConstantLiteral| list_item(c))),
                    PrimColV { rdf_node_type: list_type(items), language_tag: list_tag(items) },
                ))
            } else {
                Err(MappingErrorV::ConstantWrongType(param, ct, ptype))
            }
        },
    }
}

fn literal_cell_exec(c: &ConstantLiteral) -> (r: (Value, RDFNodeType, Option<String>))
    ensures
        (r.0@, r.1@, opt_str_view(r.2)) == literal_cell(*c),
{
    match c {
        ConstantLiteral::Iri(s) => (Value::Item(Scalar::Iri(s.clone())), RDFNodeType::IRI, None),
        ConstantLiteral::BlankNode(s) => (Value::Item(Scalar::Text(s.clone())), RDFNodeType::BlankNode, None),
        ConstantLiteral::Literal { value, data_type, language } => {
            let t = RDFNodeType::Literal(data_type.clone());
            let lang = if t.is_string() { copy_opt_str(language) } else { None };
            (Value::Item(Scalar::Text(value.clone())), t, lang)
        },
        ConstantLiteral::NoValue => (Value::Null, RDFNodeType::Unknown, None),
    }
}

fn list_item_exec(c: &ConstantLiteral) -> (r: Scalar)
    ensures
        r@ == list_item(*c),
{
    match c {
        ConstantLiteral::Iri(s) => Scalar::Iri(s.clone()),
        ConstantLiteral::BlankNode(s) => Scalar::Text(s.clone()),
        ConstantLiteral::Literal { value, .. } => Scalar::Text(value.clone()),
        ConstantLiteral::NoValue => Scalar::Text(String::new()),
    }
}

/// Lowers a constant to a cell and its column type (see [`lower_spec`]).
pub fn constant_to_value(ct: &ConstantTerm, ptype: &Option<PType>, in_expander: bool, param: &String) -> (r: Result<(Value, PrimitiveColumn), MappingError>)
    ensures
        match r {
            Ok((v, pc)) => lower_spec(ct@, *ptype, in_expander, param@) == Ok::<(ValueV, PrimColV), MappingErrorV>((v@, pc@)),
            Err(e) => lower_spec(ct@, *ptype, in_expander, param@) == Err::<(ValueV, PrimColV), MappingErrorV>(e@),
        },
{
    match ct {
        ConstantTerm::Constant(c) => {
            let (cell, n, lang) = literal_cell_exec(c);
            if opt_ptype_admits_exec(ptype, &n, false) {
                Ok((cell, PrimitiveColumn { rdf_node_type: n, language_tag: lang }))
            } else {
                Err(MappingError::ConstantWrongType(param.clone(), ct.copy(), crate::model::copy_opt_ptype(ptype)))
            }
        },
        ConstantTerm::ConstantList(items) => {
            if !in_expander {
                return Err(MappingError::ListOutsideExpander(param.clone()));
            }
            let (n, lang) = if items.len() == 0 {
                (RDFNodeType::Unknown, None)
            } else {
                let (_, n0, l0) = literal_cell_exec(&items[0]);
                (n0, l0)
            };
            let mut cells: Vec<Scalar> = Vec::new();
            let mut ok = true;
            let mut k: usize = 0;
            while k < items.len()
                invariant
                    k <= items.len(),
                    cells.len() == k,
                    n@ == list_type(items@),
                    ok == (forall|m: int| 0 <= m < k ==> !(#[trigger] items@[m] is NoValue) && literal_cell(items@[m]).1 == n@),
                    forall|m: int| 0 <= m < k ==> (#[trigger] cells@[m])@ == list_item(items@[m]),
                decreases items.len() - k,
            {
                let (_, nk, _) = literal_cell_exec(&items[k]);
                let is_none = match &items[k] {
                    ConstantLiteral::NoValue => true,
                    _ => false,
                };
                if is_none || !nk.same(&n) {
                    ok = false;
                }
                cells.push(list_item_exec(&items[k]));
                k += 1;
            }
            if ok && opt_ptype_admits_exec(ptype, &n, true) {
                proof {
                    assert(scalars_view(cells@) =~= items@.map_values(|c: ConstantLiteral| list_item(c)));
                }
                Ok((Value::List(cells), PrimitiveColumn { rdf_node_type: n, language_tag: lang }))
            } else {
                Err(MappingError::ConstantWrongType(param.clone(), ct.copy(), crate::model::copy_opt_ptype(ptype)))
            }
        },
    }
}

} // verus!
