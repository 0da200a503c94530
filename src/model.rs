//! Templates, terms, node types and errors.
use vstd::prelude::*;

verus! {

/// IRI of the one terminal template.
pub open spec fn ottr_triple_iri() -> Seq<char> {
    "http://ns.ottr.xyz/0.4/Triple"@
}

pub open spec fn xsd_string_iri() -> Seq<char> {
    "http://www.w3.org/2001/XMLSchema#string"@
}

pub open spec fn xsd_long_iri() -> Seq<char> {
    "http://www.w3.org/2001/XMLSchema#long"@
}

pub open spec fn xsd_boolean_iri() -> Seq<char> {
    "http://www.w3.org/2001/XMLSchema#boolean"@
}

pub open spec fn xsd_float_iri() -> Seq<char> {
    "http://www.w3.org/2001/XMLSchema#float"@
}

pub open spec fn xsd_any_uri_iri() -> Seq<char> {
    "http://www.w3.org/2001/XMLSchema#anyURI"@
}

pub open spec fn ottr_iri_iri() -> Seq<char> {
    "http://ns.ottr.xyz/0.4/IRI"@
}

pub open spec fn rdfs_resource_iri() -> Seq<char> {
    "http://www.w3.org/2000/01/rdf-schema#Resource"@
}

pub open spec fn rdfs_literal_iri() -> Seq<char> {
    "http://www.w3.org/2000/01/rdf-schema#Literal"@
}

pub fn ottr_triple() -> (r: String)
    ensures
        r@ == ottr_triple_iri(),
{
    String::from_str("http://ns.ottr.xyz/0.4/Triple")
}

pub fn xsd_string() -> (r: String)
    ensures
        r@ == xsd_string_iri(),
{
    String::from_str("http://www.w3.org/2001/XMLSchema#string")
}

pub fn xsd_long() -> (r: String)
    ensures
        r@ == xsd_long_iri(),
{
    String::from_str("http://www.w3.org/2001/XMLSchema#long")
}

pub fn xsd_boolean() -> (r: String)
    ensures
        r@ == xsd_boolean_iri(),
{
    String::from_str("http://www.w3.org/2001/XMLSchema#boolean")
}

pub fn xsd_any_uri() -> (r: String)
    ensures
        r@ == xsd_any_uri_iri(),
{
    String::from_str("http://www.w3.org/2001/XMLSchema#anyURI")
}

/// The RDF kind of the values of a column.
#[derive(Clone, Debug)]
pub enum RDFNodeType {
    IRI,
    BlankNode,
    Literal(String),
    Unknown,
}

pub enum NodeTypeV {
    IRI,
    BlankNode,
    Literal(Seq<char>),
    Unknown,
}

impl View for RDFNodeType {
    type V = NodeTypeV;

    open spec fn view(&self) -> NodeTypeV {
        match self {
            RDFNodeType::IRI => NodeTypeV::IRI,
            RDFNodeType::BlankNode => NodeTypeV::BlankNode,
            RDFNodeType::Literal(s) => NodeTypeV::Literal(s@),
            RDFNodeType::Unknown => NodeTypeV::Unknown,
        }
    }
}

impl RDFNodeType {
    pub fn copy(&self) -> (r: RDFNodeType)
        ensures
            r@ == self@,
    {
        match self {
            RDFNodeType::IRI => RDFNodeType::IRI,
            RDFNodeType::BlankNode => RDFNodeType::BlankNode,
            RDFNodeType::Literal(s) => RDFNodeType::Literal(s.clone()),
            RDFNodeType::Unknown => RDFNodeType::Unknown,
        }
    }

    pub fn same(&self, o: &RDFNodeType) -> (r: bool)
        ensures
            r == (self@ == o@),
    {
        match (self, o) {
            (RDFNodeType::IRI, RDFNodeType::IRI) => true,
            (RDFNodeType::BlankNode, RDFNodeType::BlankNode) => true,
            (RDFNodeType::Literal(a), RDFNodeType::Literal(b)) => a.eq(b),
            (RDFNodeType::Unknown, RDFNodeType::Unknown) => true,
            _ => false,
        }
    }

    /// Whether this is the literal type with datatype `dt`.
    pub fn is_lit_type(&self, dt: &String) -> (r: bool)
        ensures
            r == (self@ == NodeTypeV::Literal(dt@)),
    {
        match self {
            RDFNodeType::Literal(l) => l.eq(dt),
            _ => false,
        }
    }

    pub fn is_bool(&self) -> (r: bool)
        ensures
            r == (self@ == NodeTypeV::Literal(xsd_boolean_iri())),
    {
        let dt = xsd_boolean();
        self.is_lit_type(&dt)
    }

    pub fn is_float(&self) -> (r: bool)
        ensures
            r == (self@ == NodeTypeV::Literal(xsd_float_iri())),
    {
        let dt = String::from_str("http://www.w3.org/2001/XMLSchema#float");
        self.is_lit_type(&dt)
    }

    pub fn is_string(&self) -> (r: bool)
        ensures
            r == (self@ == NodeTypeV::Literal(xsd_string_iri())),
    {
        let dt = xsd_string();
        self.is_lit_type(&dt)
    }
}

/// The type of a column: its RDF kind and, for strings, a language tag.
#[derive(Clone, Debug)]
pub struct PrimitiveColumn {
    pub rdf_node_type: RDFNodeType,
    pub language_tag: Option<String>,
}

pub struct PrimColV {
    pub rdf_node_type: NodeTypeV,
    pub language_tag: Option<Seq<char>>,
}

pub open spec fn opt_str_view(o: Option<String>) -> Option<Seq<char>> {
    match o {
        Some(s) => Some(s@),
        None => None,
    }
}

pub fn copy_opt_str(o: &Option<String>) -> (r: Option<String>)
    ensures
        opt_str_view(r) == opt_str_view(*o),
        r == *o,
{
    match o {
        Some(s) => Some(s.clone()),
        None => None,
    }
}

impl View for PrimitiveColumn {
    type V = PrimColV;

    open spec fn view(&self) -> PrimColV {
        PrimColV { rdf_node_type: self.rdf_node_type@, language_tag: opt_str_view(self.language_tag) }
    }
}

impl PrimitiveColumn {
    pub fn copy(&self) -> (r: PrimitiveColumn)
        ensures
            r@ == self@,
    {
        PrimitiveColumn {
            rdf_node_type: self.rdf_node_type.copy(),
            language_tag: copy_opt_str(&self.language_tag),
        }
    }
}

/// A constant that is not a list.
#[derive(Clone, Debug)]
pub enum ConstantLiteral {
    Iri(String),
    BlankNode(String),
    Literal { value: String, data_type: String, language: Option<String> },
    NoValue,
}

impl ConstantLiteral {
    pub fn copy(&self) -> (r: ConstantLiteral)
        ensures
            r == *self,
    {
        match self {
            ConstantLiteral::Iri(s) => ConstantLiteral::Iri(s.clone()),
            ConstantLiteral::BlankNode(s) => ConstantLiteral::BlankNode(s.clone()),
            ConstantLiteral::Literal { value, data_type, language } => ConstantLiteral::Literal {
                value: value.clone(),
                data_type: data_type.clone(),
                language: copy_opt_str(language),
            },
            ConstantLiteral::NoValue => ConstantLiteral::NoValue,
        }
    }
}

/// A constant term of a template: one constant, or a list of them.
#[derive(Clone, Debug)]
pub enum ConstantTerm {
    Constant(ConstantLiteral),
    ConstantList(Vec<ConstantLiteral>),
}

pub enum ConstTermV {
    Constant(ConstantLiteral),
    ConstantList(Seq<ConstantLiteral>),
}

impl View for ConstantTerm {
    type V = ConstTermV;

    open spec fn view(&self) -> ConstTermV {
        match self {
            ConstantTerm::Constant(c) => ConstTermV::Constant(*c),
            ConstantTerm::ConstantList(v) => ConstTermV::ConstantList(v@),
        }
    }
}

impl ConstantTerm {
    pub fn copy(&self) -> (r: ConstantTerm)
        ensures
            r@ == self@,
    {
        match self {
            ConstantTerm::Constant(c) => ConstantTerm::Constant(c.copy()),
            ConstantTerm::ConstantList(v) => {
                let mut r: Vec<ConstantLiteral> = Vec::new();
                let mut i: usize = 0;
                while i < v.len()
                    invariant
                        i <= v.len(),
                        r.len() == i,
                        forall|k: int| 0 <= k < i ==> r@[k] == v@[k],
                    decreases v.len() - i,
                {
                    r.push(v[i].copy());
                    i += 1;
                }
                proof {
                    assert(r@ =~= v@);
                }
                ConstantTerm::ConstantList(r)
            },
        }
    }
}

/// The declared type of a parameter.
#[derive(Debug)]
pub enum PType {
    Basic(String, String),
    Lub(Box<PType>),
    List(Box<PType>),
    NonEmptyList(Box<PType>),
}

impl PType {
    pub fn copy(&self) -> (r: PType)
        ensures
            r == *self,
        decreases self,
    {
        match self {
            PType::Basic(a, b) => PType::Basic(a.clone(), b.clone()),
            PType::Lub(p) => PType::Lub(Box::new((**p).copy())),
            PType::List(p) => PType::List(Box::new((**p).copy())),
            PType::NonEmptyList(p) => PType::NonEmptyList(Box::new((**p).copy())),
        }
    }
}

pub fn copy_opt_ptype(p: &Option<PType>) -> (r: Option<PType>)
    ensures
        r == *p,
{
    match p {
        Some(t) => Some(t.copy()),
        None => None,
    }
}

/// How a bucket's objects are written out.
#[derive(PartialEq, Eq, Structural, Clone, Copy, Debug)]
pub enum TripleType {
    ObjectProperty,
    StringProperty,
    NonStringProperty,
}

impl RDFNodeType {
    /// The kind of property whose objects have this type; none for blank
    /// nodes and unknown types.
    pub fn find_triple_type(&self) -> (r: Option<TripleType>)
        ensures
            r == match self@ {
                NodeTypeV::IRI => Some(TripleType::ObjectProperty),
                NodeTypeV::Literal(dt) => if dt == xsd_string_iri() {
                    Some(TripleType::StringProperty)
                } else {
                    Some(TripleType::NonStringProperty)
                },
                _ => None::<TripleType>,
            },
    {
        match self {
            RDFNodeType::IRI => Some(TripleType::ObjectProperty),
            RDFNodeType::Literal(_) => if self.is_string() {
                Some(TripleType::StringProperty)
            } else {
                Some(TripleType::NonStringProperty)
            },
            _ => None,
        }
    }
}

/// A parameter of a template signature.
pub struct Parameter {
    pub variable_name: String,
    pub ptype: Option<PType>,
    pub optional: bool,
    pub non_blank: bool,
    pub default_value: Option<ConstantTerm>,
}

/// A template's name and ordered parameter list.
pub struct Signature {
    pub template_name: String,
    pub parameter_list: Vec<Parameter>,
}

/// The term of an argument at a call site.
pub enum StottrTerm {
    Variable(String),
    ConstantTerm(ConstantTerm),
    List(Vec<ConstantTerm>),
}

pub struct Argument {
    pub term: StottrTerm,
    pub list_expand: bool,
}

#[derive(PartialEq, Eq, Structural, Clone, Copy, Debug)]
pub enum ListExpanderType {
    Cross,
    ZipMin,
    ZipMax,
}

/// A call of a template from within another template's body.
pub struct Instance {
    pub template_name: String,
    pub argument_list: Vec<Argument>,
    pub list_expander: Option<ListExpanderType>,
}

pub struct Template {
    pub signature: Signature,
    pub pattern_list: Vec<Instance>,
}

/// The parsed templates together with the prefixes of their names.
pub struct TemplateDataset {
    pub templates: Vec<Template>,
    pub prefix_map: Vec<(String, String)>,
}

/// Errors of template expansion and of the triple store.
#[derive(Debug)]
pub enum MappingError {
    TemplateNotFound(String),
    /// The prefix, and the name it expanded to.
    NoTemplateForPrefix(String, String),
    MissingParameterColumn(String),
    UnknownVariable(String),
    /// The column, the type inferred for it, and the declared type.
    ColumnTypeMismatch(String, RDFNodeType, PType),
    /// The parameter, the constant, and its declared type if any.
    ConstantWrongType(String, ConstantTerm, Option<PType>),
    /// The constant given for the predicate.
    InvalidPredicateConstant(ConstantTerm),
    ListOutsideExpander(String),
    ListArgumentUnsupported(String),
    InvalidIri(String),
    TemplateNestingTooDeep(String),
    RemoveSpillFile(String),
}

pub enum MappingErrorV {
    TemplateNotFound(Seq<char>),
    NoTemplateForPrefix(Seq<char>, Seq<char>),
    MissingParameterColumn(Seq<char>),
    UnknownVariable(Seq<char>),
    ColumnTypeMismatch(Seq<char>, NodeTypeV, PType),
    ConstantWrongType(Seq<char>, ConstTermV, Option<PType>),
    InvalidPredicateConstant(ConstTermV),
    ListOutsideExpander(Seq<char>),
    ListArgumentUnsupported(Seq<char>),
    InvalidIri(Seq<char>),
    TemplateNestingTooDeep(Seq<char>),
    RemoveSpillFile(Seq<char>),
}

impl View for MappingError {
    type V = MappingErrorV;

    open spec fn view(&self) -> MappingErrorV {
        match self {
            MappingError::TemplateNotFound(s) => MappingErrorV::TemplateNotFound(s@),
            MappingError::NoTemplateForPrefix(p, s) => MappingErrorV::NoTemplateForPrefix(p@, s@),
            MappingError::MissingParameterColumn(s) => MappingErrorV::MissingParameterColumn(s@),
            MappingError::UnknownVariable(s) => MappingErrorV::UnknownVariable(s@),
            MappingError::ColumnTypeMismatch(s, t, d) => MappingErrorV::ColumnTypeMismatch(s@, t@, *d),
            MappingError::ConstantWrongType(s, c, d) => MappingErrorV::ConstantWrongType(s@, c@, *d),
            MappingError::InvalidPredicateConstant(c) => MappingErrorV::InvalidPredicateConstant(c@),
            MappingError::ListOutsideExpander(s) => MappingErrorV::ListOutsideExpander(s@),
            MappingError::ListArgumentUnsupported(s) => MappingErrorV::ListArgumentUnsupported(s@),
            MappingError::InvalidIri(s) => MappingErrorV::InvalidIri(s@),
            MappingError::TemplateNestingTooDeep(s) => MappingErrorV::TemplateNestingTooDeep(s@),
            MappingError::RemoveSpillFile(s) => MappingErrorV::RemoveSpillFile(s@),
        }
    }
}

/// A parameter as remapping sees it: its name and declared type.
pub struct ParamV {
    pub name: Seq<char>,
    pub ptype: Option<PType>,
}

pub open spec fn params_view(ps: Seq<Parameter>) -> Seq<ParamV> {
    ps.map_values(|p: Parameter| ParamV { name: p.variable_name@, ptype: p.ptype })
}

/// The parameters of the built-in triple template.
pub open spec fn triple_params() -> Seq<ParamV> {
    seq![
        ParamV { name: "subject"@, ptype: None },
        ParamV { name: "verb"@, ptype: None },
        ParamV { name: "object"@, ptype: None },
    ]
}

pub fn triple_signature() -> (r: Signature)
    ensures
        r.template_name@ == ottr_triple_iri(),
        params_view(r.parameter_list@) == triple_params(),
{
    let mut ps: Vec<Parameter> = Vec::new();
    ps.push(Parameter { variable_name: String::from_str("subject"), ptype: None, optional: false, non_blank: false, default_value: None });
    ps.push(Parameter { variable_name: String::from_str("verb"), ptype: None, optional: false, non_blank: false, default_value: None });
    ps.push(Parameter { variable_name: String::from_str("object"), ptype: None, optional: false, non_blank: false, default_value: None });
    proof {
        assert(params_view(ps@) =~= triple_params());
    }
    Signature { template_name: ottr_triple(), parameter_list: ps }
}

} // verus!
