//! The parsed-document model that the analysis reads.
//!
//! Parsing is done by `toml_dom`; this module holds, as plain values, exactly
//! what the analysis reads from its result: the source-ordered items with
//! their authored spelling (keys, whitespace, raw scalars, brackets and
//! commas), the scalar values the index records (enum references and
//! quantities), and the semantic tree of tables, arrays and enum definitions.
use vstd::prelude::*;

verus! {

/// Separator between the primary and the super unit of a quantity.
#[derive(Debug, Clone, Copy, PartialEq, Eq, Structural)]
pub enum QuantitySeparator {
    /// `/`, a rate such as `EUR/L`.
    Per,
    /// `*`, a product such as `N*m`.
    Times,
}

/// The magnitude of a quantity. A fractional magnitude is held as its
/// shortest decimal text (`1.80` reads back as `1.8`).
#[derive(Debug, Clone, PartialEq, Eq)]
pub enum QuantityMagnitude {
    Integer(i64),
    Float(String),
}

/// A mixed quantity such as `123ms`, `5m²` or `1.80EUR/L`.
#[derive(Debug, Clone, PartialEq, Eq)]
pub struct QuantityValue {
    pub magnitude: QuantityMagnitude,
    pub unit: String,
    pub separator: Option<QuantitySeparator>,
    pub super_unit: Option<String>,
}

/// What the analysis reads from a scalar's semantic value.
#[derive(Debug, Clone, PartialEq, Eq)]
pub enum ScalarValue {
    /// `Enum::Symbol`, with the decoded enum key path.
    EnumRef { enum_path: Vec<String>, symbol: String },
    Quantity(QuantityValue),
    Other,
}

/// An authored value: a scalar, an array, an inline table or an enum symbol.
#[derive(Debug, PartialEq, Eq)]
pub enum SourceValue {
    Scalar { raw: Option<String>, value: ScalarValue },
    Array(SourceArray),
    InlineTable(SourceInlineTable),
    EnumSymbol { raw: String, symbol: String },
}

#[derive(Debug, PartialEq, Eq)]
pub struct SourceArray {
    pub open: String,
    pub elements: Vec<SourceElement>,
    pub close: String,
}

#[derive(Debug, PartialEq, Eq)]
pub struct SourceElement {
    pub leading: String,
    pub node: SourceValue,
    pub trailing: String,
    pub comma: Option<String>,
}

#[derive(Debug, PartialEq, Eq)]
pub struct SourceInlineTable {
    pub open: String,
    pub entries: Vec<SourceInlineEntry>,
    pub close: String,
}

#[derive(Debug, PartialEq, Eq)]
pub struct SourceInlineEntry {
    pub leading: String,
    pub raw_key: String,
    pub pre_eq: String,
    pub post_eq: String,
    pub node: SourceValue,
    pub trailing: String,
    pub comma: Option<String>,
}

/// A `key = value` line as authored.
#[derive(Debug, PartialEq, Eq)]
pub struct SourceEntry {
    pub raw_key: String,
    pub pre_eq: String,
    pub post_eq: String,
    pub node: SourceValue,
}

/// A `[table]`, `[[array]]` or `[child : parent, ...]` header.
#[derive(Debug, Clone, PartialEq, Eq)]
pub struct SourceSection {
    pub raw: String,
    pub path: Vec<String>,
    pub is_array: bool,
    pub parents: Vec<Vec<String>>,
}

/// One item of the source-ordered document.
#[derive(Debug, PartialEq, Eq)]
pub enum SourceItem {
    Entry { node: SourceEntry, path: Vec<String> },
    Section(SourceSection),
    Eof,
}

/// A key of a semantic table with its value.
#[derive(Debug, PartialEq, Eq)]
pub struct TableEntry {
    pub key: String,
    pub value: SemanticValue,
}

/// One choice of an enum definition.
#[derive(Debug, PartialEq, Eq)]
pub enum SemanticChoice {
    Symbol(String),
    Value(SemanticValue),
}

/// The semantic (resolved) value tree. Leaves keep the parser's type name.
#[derive(Debug, PartialEq, Eq)]
pub enum SemanticValue {
    Table(Vec<TableEntry>),
    Array(Vec<SemanticValue>),
    EnumDefinition(Vec<SemanticChoice>),
    Leaf(LeafKind),
}

/// The kind of a semantic value that is neither a table, an array nor an enum definition.
#[derive(Debug, Clone, Copy, PartialEq, Eq, Structural)]
pub enum LeafKind {
    String,
    Integer,
    Float,
    Boolean,
    OffsetDateTime,
    LocalDateTime,
    LocalDate,
    LocalTime,
    Quantity,
    PathRef,
    Enum,
    Other,
}

/// The classification of a parse failure that the analysis distinguishes.
#[derive(Debug, Clone, Copy, PartialEq, Eq, Structural)]
pub enum ParseErrorKind {
    DuplicateKey,
    IntegerOverflow,
    InvalidEscape,
    KeyNotFound,
    CyclicPathRef,
    Other,
}

/// A parse failure with its 1-based line and column, when known.
#[derive(Debug, Clone, PartialEq, Eq)]
pub struct ParseError {
    pub kind: ParseErrorKind,
    pub message: String,
    pub location: Option<(u32, u32)>,
}

/// A successfully parsed ATML document.
#[derive(Debug)]
pub struct AtmlDocument {
    pub items: Vec<SourceItem>,
    pub root: Vec<TableEntry>,
    pub dom: toml_dom::Document,
}

#[verifier::external_type_specification]
#[verifier::external_body]
pub struct ExTomlDocument(toml_dom::Document);

#[verifier::external_type_specification]
#[verifier::external_body]
pub struct ExTomlDocumentItem(toml_dom::DocumentItem);

#[verifier::external_type_specification]
#[verifier::external_body]
pub struct ExTomlEntryNode(toml_dom::EntryNode);

#[verifier::external_type_specification]
#[verifier::external_body]
pub struct ExTomlSectionNode(toml_dom::SectionNode);

#[verifier::external_type_specification]
#[verifier::external_body]
pub struct ExTomlValueNode(toml_dom::ValueNode);

#[verifier::external_type_specification]
#[verifier::external_body]
pub struct ExTomlArrayElement(toml_dom::ArrayElement);

#[verifier::external_type_specification]
#[verifier::external_body]
pub struct ExTomlInlineEntry(toml_dom::InlineEntry);

#[verifier::external_type_specification]
#[verifier::external_body]
pub struct ExTomlValue(toml_dom::Value);

#[verifier::external_type_specification]
#[verifier::external_body]
pub struct ExTomlTable(toml_dom::Table);

#[verifier::external_type_specification]
#[verifier::external_body]
pub struct ExTomlEnumChoice(toml_dom::EnumChoice);

#[verifier::external_type_specification]
#[verifier::external_body]
pub struct ExTomlQuantity(toml_dom::Quantity);

#[verifier::external_type_specification]
#[verifier::external_body]
pub struct ExTomlError(toml_dom::TomlError);

#[verifier::external_type_specification]
#[verifier::external_body]
pub struct ExTomlErrorKind(toml_dom::TomlErrorKind);

/// What the analysis reads of a parsed document: its source-ordered items
/// and its root table, as plain values.
pub type DocModel = (Seq<SourceItem>, Seq<TableEntry>);

/// The plain part of a parsed document, leaving out the parser's own document.
pub open spec fn model_of(d: AtmlDocument) -> DocModel {
    (d.items@, d.root@)
}

/// The plain result of `toml_dom::Document::parse_atml` on a source text: the
/// document's items and root table, or the parse error. These are a function
/// of the text alone; the parser's own `Document`, which holds hash maps
/// seeded anew on each parse, is not part of this value.
pub uninterp spec fn atml_parse(source: Seq<char>) -> Result<DocModel, ParseError>;

/// Calls `toml_dom::Document::parse_atml` and converts its result one for one
/// into the model. The contract claims only that the items, root table and
/// error are determined by the source text; what the parser accepts is not
/// stated, and nothing is claimed of the `dom` that the result also carries.
#[verifier::external_body]
pub(crate) fn parse_atml(source: &str) -> (r: Result<AtmlDocument, ParseError>)
    ensures
        match r {
            Ok(d) => atml_parse(source@) == Ok::<DocModel, ParseError>(model_of(d)),
            Err(e) => atml_parse(source@) == Err::<DocModel, ParseError>(e),
        },
{
    match toml_dom::Document::parse_atml(source) {
        Ok(dom) => Ok(document_from_dom(dom)),
        Err(error) => Err(error_from_dom(&error)),
    }
}

/// Model of a parsed `toml_dom::Document` (items and root table), keeping the document.
#[verifier::external_body]
fn document_from_dom(dom: toml_dom::Document) -> AtmlDocument {
    AtmlDocument {
        items: dom.items().iter().map(item_from_dom).collect(),
        root: table_from_dom(dom.root()),
        dom,
    }
}

/// Model of a `toml_dom::DocumentItem`, one arm per variant.
#[verifier::external_body]
fn item_from_dom(item: &toml_dom::DocumentItem) -> SourceItem {
    match item {
        toml_dom::DocumentItem::Entry { node, path } => SourceItem::Entry { node: entry_from_dom(node), path: path.clone() },
        toml_dom::DocumentItem::Section(section) => SourceItem::Section(section_from_dom(section)),
        toml_dom::DocumentItem::Eof(_) => SourceItem::Eof,
    }
}

/// Model of a `toml_dom::EntryNode`.
#[verifier::external_body]
fn entry_from_dom(e: &toml_dom::EntryNode) -> SourceEntry {
    SourceEntry { raw_key: e.raw_key.clone(), pre_eq: e.pre_eq.clone(), post_eq: e.post_eq.clone(), node: node_from_dom(&e.node) }
}

/// Model of a `toml_dom::SectionNode`.
#[verifier::external_body]
fn section_from_dom(s: &toml_dom::SectionNode) -> SourceSection {
    SourceSection { raw: s.raw.clone(), path: s.path.clone(), is_array: s.is_array, parents: s.parents.clone() }
}

/// Model of a `toml_dom::ValueNode`, one arm per variant.
#[verifier::external_body]
fn node_from_dom(node: &toml_dom::ValueNode) -> SourceValue {
    match node {
        toml_dom::ValueNode::Scalar { raw, value } => SourceValue::Scalar { raw: raw.clone(), value: scalar_from_dom(value) },
        toml_dom::ValueNode::Array(a) => SourceValue::Array(SourceArray {
            open: a.open.clone(), elements: a.elements.iter().map(element_from_dom).collect(), close: a.close.clone(),
        }),
        toml_dom::ValueNode::InlineTable(t) => SourceValue::InlineTable(SourceInlineTable {
            open: t.open.clone(), entries: t.entries.iter().map(inline_entry_from_dom).collect(), close: t.close.clone(),
        }),
        toml_dom::ValueNode::EnumSymbol { raw, symbol } => SourceValue::EnumSymbol { raw: raw.clone(), symbol: symbol.clone() },
    }
}

/// Model of a `toml_dom::ArrayElement`.
#[verifier::external_body]
fn element_from_dom(e: &toml_dom::ArrayElement) -> SourceElement {
    SourceElement { leading: e.leading.clone(), node: node_from_dom(&e.node), trailing: e.trailing.clone(), comma: e.comma.clone() }
}

/// Model of a `toml_dom::InlineEntry`.
#[verifier::external_body]
fn inline_entry_from_dom(e: &toml_dom::InlineEntry) -> SourceInlineEntry {
    SourceInlineEntry {
        leading: e.leading.clone(), raw_key: e.raw_key.clone(), pre_eq: e.pre_eq.clone(), post_eq: e.post_eq.clone(),
        node: node_from_dom(&e.node), trailing: e.trailing.clone(), comma: e.comma.clone(),
    }
}

/// Model of the scalar value the analysis reads: an enum reference, a quantity, or other.
#[verifier::external_body]
fn scalar_from_dom(value: &toml_dom::Value) -> ScalarValue {
    match value {
        toml_dom::Value::Enum(r) => ScalarValue::EnumRef { enum_path: r.enum_path.clone(), symbol: r.symbol.clone() },
        toml_dom::Value::Quantity(q) => ScalarValue::Quantity(quantity_from_dom(q)),
        _ => ScalarValue::Other,
    }
}

/// Model of a `toml_dom::Quantity`; a float magnitude becomes its `Display` text.
#[verifier::external_body]
fn quantity_from_dom(q: &toml_dom::Quantity) -> QuantityValue {
    QuantityValue {
        magnitude: match q.magnitude {
            toml_dom::QuantityMagnitude::Integer(n) => QuantityMagnitude::Integer(n),
            toml_dom::QuantityMagnitude::Float(x) => QuantityMagnitude::Float(x.to_string()),
        },
        unit: q.unit.clone(),
        separator: q.separator.map(|s| match s {
            toml_dom::QuantitySeparator::Per => QuantitySeparator::Per,
            toml_dom::QuantitySeparator::Times => QuantitySeparator::Times,
        }),
        super_unit: q.super_unit.clone(),
    }
}

/// Model of a `toml_dom::Value` as a semantic tree; other values keep their kind.
#[verifier::external_body]
fn semantic_from_dom(value: &toml_dom::Value) -> SemanticValue {
    match value {
        toml_dom::Value::Table(t) => SemanticValue::Table(table_from_dom(t)),
        toml_dom::Value::Array(a) => SemanticValue::Array(a.iter().map(semantic_from_dom).collect()),
        toml_dom::Value::EnumDefinition(d) => SemanticValue::EnumDefinition(d.choices.iter().map(choice_from_dom).collect()),
        other => SemanticValue::Leaf(leaf_kind_from_dom(other)),
    }
}

/// The kind of a leaf `toml_dom::Value`, one arm per variant.
#[verifier::external_body]
fn leaf_kind_from_dom(value: &toml_dom::Value) -> LeafKind {
    match value {
        toml_dom::Value::String(_) => LeafKind::String,
        toml_dom::Value::Integer(_) => LeafKind::Integer,
        toml_dom::Value::Float(_) => LeafKind::Float,
        toml_dom::Value::Boolean(_) => LeafKind::Boolean,
        toml_dom::Value::OffsetDateTime(_) => LeafKind::OffsetDateTime,
        toml_dom::Value::LocalDateTime(_) => LeafKind::LocalDateTime,
        toml_dom::Value::LocalDate(_) => LeafKind::LocalDate,
        toml_dom::Value::LocalTime(_) => LeafKind::LocalTime,
        toml_dom::Value::Quantity(_) => LeafKind::Quantity,
        toml_dom::Value::PathRef(_) => LeafKind::PathRef,
        toml_dom::Value::Enum(_) => LeafKind::Enum,
        _ => LeafKind::Other,
    }
}

/// Model of a `toml_dom::Table`, in its insertion order.
#[verifier::external_body]
fn table_from_dom(table: &toml_dom::Table) -> Vec<TableEntry> {
    table.iter().map(|(key, value)| TableEntry { key: key.to_owned(), value: semantic_from_dom(value) }).collect()
}

/// Model of a `toml_dom::EnumChoice`, one arm per variant.
#[verifier::external_body]
fn choice_from_dom(choice: &toml_dom::EnumChoice) -> SemanticChoice {
    match choice {
        toml_dom::EnumChoice::Symbol(s) => SemanticChoice::Symbol(s.clone()),
        toml_dom::EnumChoice::Value(v) => SemanticChoice::Value(semantic_from_dom(v)),
    }
}

/// Model of a `toml_dom::TomlError`: its kind, message and line/column.
#[verifier::external_body]
fn error_from_dom(error: &toml_dom::TomlError) -> ParseError {
    ParseError {
        kind: error_kind_from_dom(&error.kind),
        message: error.message.clone(),
        location: error.location.as_ref().map(|l| (l.line, l.column)),
    }
}

/// Model of a `toml_dom::TomlErrorKind`, one arm per distinguished variant.
#[verifier::external_body]
fn error_kind_from_dom(kind: &toml_dom::TomlErrorKind) -> ParseErrorKind {
    match kind {
        toml_dom::TomlErrorKind::DuplicateKey => ParseErrorKind::DuplicateKey,
        toml_dom::TomlErrorKind::IntegerOverflow => ParseErrorKind::IntegerOverflow,
        toml_dom::TomlErrorKind::InvalidEscape(_) => ParseErrorKind::InvalidEscape,
        toml_dom::TomlErrorKind::KeyNotFound(_) => ParseErrorKind::KeyNotFound,
        toml_dom::TomlErrorKind::CyclicPathRef(_) => ParseErrorKind::CyclicPathRef,
        toml_dom::TomlErrorKind::ParseError => ParseErrorKind::Other,
        toml_dom::TomlErrorKind::TypeError { .. } => ParseErrorKind::Other,
        toml_dom::TomlErrorKind::InvalidUtf8 => ParseErrorKind::Other,
        toml_dom::TomlErrorKind::Io(_) => ParseErrorKind::Other,
        toml_dom::TomlErrorKind::SerializeError(_) => ParseErrorKind::Other,
        toml_dom::TomlErrorKind::CyclicInheritance(_) => ParseErrorKind::Other,
        _ => ParseErrorKind::Other,
    }
}

} // verus!
