//! Editor-independent analysis for ATML documents.
use vstd::prelude::*;
use vstd::string::StringSliceAdditionalSpecFns;
use vstd::utf8::*;

pub mod text;
pub mod document;
pub mod paths;
pub mod semantic;
pub mod chain;
pub mod cycles;
pub mod builder;
pub mod sorting;
pub mod diagnostics;
pub mod recovery;
pub mod symbols;
pub mod completion;
pub mod editing;
pub mod navigation;
pub mod positions;
pub mod session;
pub mod protocol;
pub mod schedule;

use crate::builder::{collected, cycles_complete, cycles_sound, defs_view, edges_view, index_shape, quants_view, refs_view, resolved};
use crate::diagnostics::{
    all_diagnostics, error, lemma_views_filter, semantic_diagnostics, view_with_key, views, DiagnosticView,
};
use crate::document::{atml_parse, model_of, parse_atml, AtmlDocument, DocModel, ParseError, ParseErrorKind};
use crate::recovery::{recover_reference_document, recovered_text, reference_ranges};
use crate::semantic::{first_byte_from, lemma_first_byte_from};

pub use completion::{complete, CompletionItem, CompletionKind};
pub use editing::{
    prepare_rename, quick_fixes, rename, semantic_tokens, QuickFix, RenameError, RenameTarget, SemanticToken,
    SemanticTokenKind, TextChange,
};
pub use navigation::{find_references, goto_definition, hover, HoverResult, NavigationTarget};
pub use semantic::{
    CycleKind, Definition, DefinitionId, DefinitionKind, InheritanceEdge, QuantityOccurrence, Reference, ReferenceKind,
    SemanticCycle, SemanticIndex, ValueType,
};
use crate::sorting::{sort_diagnostics, sorted_diagnostics, with_key};
use crate::symbols::{collect_symbols, outline_entries, symbol_forest};
use crate::text::{find_byte, lemma_ascii_boundaries, lemma_boundary_after_char, lemma_view_from_bytes, rfind_byte, substr};

verus! {

/// A half-open UTF-8 byte range in the source document.
#[derive(Debug, Clone, Copy, PartialEq, Eq, Structural)]
pub struct ByteRange {
    pub start: usize,
    pub end: usize,
}

/// Stable diagnostic categories exposed to editor integrations.
#[derive(Debug, Clone, PartialEq, Eq)]
pub struct Diagnostic {
    pub code: &'static str,
    pub severity: DiagnosticSeverity,
    pub message: String,
    pub range: ByteRange,
}

#[derive(Debug, Clone, Copy, PartialEq, Eq, Structural)]
pub enum DiagnosticSeverity {
    Error,
    Warning,
}

#[derive(Debug, Clone, Copy, PartialEq, Eq, Structural)]
pub enum SymbolKind {
    Key,
    Table,
    ArrayOfTables,
}

#[derive(Debug, PartialEq, Eq)]
pub struct Symbol {
    pub name: String,
    pub kind: SymbolKind,
    pub range: ByteRange,
    pub children: Vec<Symbol>,
}

/// Result of analyzing one immutable source snapshot.
#[derive(Debug, PartialEq)]
pub struct Analysis {
    pub diagnostics: Vec<Diagnostic>,
    pub symbols: Vec<Symbol>,
    pub semantic: Option<SemanticIndex>,
}

impl Default for Analysis {
    fn default() -> (r: Self)
        ensures
            r.diagnostics@.len() == 0,
            r.symbols@.len() == 0,
            r.semantic is None,
    {
        Analysis { diagnostics: Vec::new(), symbols: Vec::new(), semantic: None }
    }
}

// ---------------------------------------------------------------------------
// Lines and columns
// ---------------------------------------------------------------------------
/// The last position before `x` that holds byte `c`.
pub open spec fn last_byte_before(b: Seq<u8>, x: int, c: u8) -> Option<int>
    decreases x,
{
    if x <= 0 {
        None
    } else if b[x - 1] == c {
        Some(x - 1)
    } else {
        last_byte_before(b, x - 1, c)
    }
}

pub proof fn lemma_last_byte_before(b: Seq<u8>, x: int, c: u8)
    requires
        x <= b.len(),
    ensures
        match last_byte_before(b, x, c) {
            Some(i) => 0 <= i < x && b[i] == c && forall|j: int| i < j < x ==> b[j] != c,
            None => forall|j: int| 0 <= j < x ==> b[j] != c,
        },
    decreases x,
{
    if x > 0 && b[x - 1] != c {
        lemma_last_byte_before(b, x - 1, c);
    }
}

/// Start of the line holding byte `x`: just after the last line feed before it, or 0.
pub open spec fn line_start_before(b: Seq<u8>, x: int) -> int {
    match last_byte_before(b, x, 10) {
        Some(i) => i + 1,
        None => 0,
    }
}

/// Start of line `n` (counted from 0): just after the `n`-th line feed, or the
/// end of the text when it has fewer lines.
pub open spec fn line_start(b: Seq<u8>, n: nat) -> int
    decreases n,
{
    if n == 0 {
        0
    } else {
        match first_byte_from(b, line_start(b, (n - 1) as nat), 10) {
            Some(i) => i + 1,
            None => b.len() as int,
        }
    }
}

/// End of the line that starts at `start`: its line feed, or the end of the text.
pub open spec fn line_end(b: Seq<u8>, start: int) -> int {
    match first_byte_from(b, start, 10) {
        Some(i) => i,
        None => b.len() as int,
    }
}

/// From `pos`, `k` characters further, stopping at `end`.
pub open spec fn advance_chars(b: Seq<u8>, pos: int, end: int, k: nat) -> int
    decreases k,
{
    if k == 0 || pos >= end {
        pos
    } else {
        advance_chars(b, pos + length_of_first_scalar(b.subrange(pos, b.len() as int)), end, (k - 1) as nat)
    }
}

/// The byte offset of a 1-based line and character column; a column past the
/// end of its line gives the line's end, a line past the end the text's end.
pub open spec fn spec_line_column_to_byte(b: Seq<u8>, line: u32, column: u32) -> int {
    let start = line_start(b, if line > 0 { (line - 1) as nat } else { 0 });
    advance_chars(b, start, line_end(b, start), if column > 0 { (column - 1) as nat } else { 0 })
}

/// The boundary after the character that starts at `offset`, or `offset`
/// itself at the end of the text or off a character boundary.
pub open spec fn spec_next_char_boundary(b: Seq<u8>, offset: int) -> int {
    if 0 <= offset < b.len() && is_char_boundary(b, offset) {
        offset + length_of_first_scalar(b.subrange(offset, b.len() as int))
    } else {
        offset
    }
}

pub proof fn lemma_line_start(b: Seq<u8>, n: nat)
    requires
        valid_utf8(b),
    ensures
        0 <= line_start(b, n) <= b.len(),
        is_char_boundary(b, line_start(b, n)),
    decreases n,
{
    is_char_boundary_start_end_of_seq(b);
    if n > 0 {
        lemma_line_start(b, (n - 1) as nat);
        lemma_first_byte_from(b, line_start(b, (n - 1) as nat), 10);
        if let Some(i) = first_byte_from(b, line_start(b, (n - 1) as nat), 10) {
            lemma_ascii_boundaries(b, i);
        }
    }
}

/// A character that starts before a line's end ends at or before it.
proof fn lemma_char_in_line(b: Seq<u8>, pos: int, end: int)
    requires
        valid_utf8(b),
        is_char_boundary(b, pos),
        0 <= pos < end <= b.len(),
        end == b.len() || b[end] == 10,
    ensures
        pos + length_of_first_scalar(b.subrange(pos, b.len() as int)) <= end,
        is_char_boundary(b, pos + length_of_first_scalar(b.subrange(pos, b.len() as int))),
{
    lemma_boundary_after_char(b, pos);
    let tail = b.subrange(pos, b.len() as int);
    if end < b.len() {
        assert(tail[end - pos] == b[end]);
    }
}

/// The byte length of the character that starts at `pos`.
fn char_width(b: &[u8], pos: usize) -> (r: usize)
    requires
        pos < b@.len(),
    ensures
        r == length_of_first_scalar(b@.subrange(pos as int, b@.len() as int)),
{
    let lead = b[pos];
    proof {
        assert(b@.subrange(pos as int, b@.len() as int)[0] == lead);
    }
    if lead <= 0x7f {
        1
    } else if 0xc0 <= lead && lead <= 0xdf {
        2
    } else if 0xe0 <= lead && lead <= 0xef {
        3
    } else {
        4
    }
}

/// The byte offset of a 1-based line and character column.
pub fn line_column_to_byte(source: &str, line: u32, column: u32) -> (r: usize)
    ensures
        r == spec_line_column_to_byte(source.spec_bytes(), line, column),
        r <= source.spec_bytes().len(),
        is_char_boundary(source.spec_bytes(), r as int),
{
    let b = source.as_bytes();
    let ghost bs = b@;
    proof {
        lemma_view_from_bytes(source);
    }
    let len = b.len();
    let target_line: u32 = if line > 0 { line - 1 } else { 0 };
    let target_column: u32 = if column > 0 { column - 1 } else { 0 };
    let mut start: usize = 0;
    let mut n: u32 = 0;
    while n < target_line && start < len
        invariant
            b@ == bs,
            valid_utf8(bs),
            len == bs.len(),
            n <= target_line,
            start as int == line_start(bs, n as nat),
        decreases target_line - n,
    {
        proof {
            lemma_line_start(bs, n as nat);
        }
        start = match find_byte(b, start, len, 10) {
            Some(i) => i + 1,
            None => len,
        };
        proof {
            lemma_first_byte_from(bs, line_start(bs, n as nat), 10);
        }
        n = n + 1;
    }
    proof {
        lemma_line_start(bs, n as nat);
        if n < target_line {
            lemma_line_start_at_end(bs, n as nat, target_line as nat);
        }
        lemma_line_start(bs, target_line as nat);
        lemma_first_byte_from(bs, start as int, 10);
    }
    let end = match find_byte(b, start, len, 10) {
        Some(i) => i,
        None => len,
    };
    let mut pos = start;
    let mut k: u32 = 0;
    while k < target_column && pos < end
        invariant
            b@ == bs,
            valid_utf8(bs),
            len == bs.len(),
            start <= pos <= end <= len,
            end == len || bs[end as int] == 10,
            is_char_boundary(bs, pos as int),
            k <= target_column,
            advance_chars(bs, start as int, end as int, target_column as nat) == advance_chars(
                bs,
                pos as int,
                end as int,
                (target_column - k) as nat,
            ),
        decreases target_column - k,
    {
        proof {
            lemma_char_in_line(bs, pos as int, end as int);
        }
        pos = pos + char_width(b, pos);
        k = k + 1;
    }
    pos
}

/// Once the text's end is reached, later lines start there too.
proof fn lemma_line_start_at_end(b: Seq<u8>, n: nat, m: nat)
    requires
        line_start(b, n) == b.len(),
        n <= m,
    ensures
        line_start(b, m) == b.len(),
    decreases m - n,
{
    if n < m {
        lemma_line_start_at_end(b, n, (m - 1) as nat);
    }
}

/// The end of the character that starts at `offset`, or `offset` itself.
pub fn next_char_boundary(source: &str, offset: usize) -> (r: usize)
    ensures
        r == spec_next_char_boundary(source.spec_bytes(), offset as int),
        offset < source.spec_bytes().len() && is_char_boundary(source.spec_bytes(), offset as int) ==> r
            <= source.spec_bytes().len() && is_char_boundary(source.spec_bytes(), r as int),
{
    let b = source.as_bytes();
    proof {
        lemma_view_from_bytes(source);
    }
    if offset < b.len() && source.is_char_boundary(offset) {
        proof {
            lemma_boundary_after_char(b@, offset as int);
        }
        offset + char_width(b, offset)
    } else {
        offset
    }
}

// ---------------------------------------------------------------------------
// Diagnostics of parse errors
// ---------------------------------------------------------------------------
/// The diagnostic code of a parse failure.
pub open spec fn error_code(kind: ParseErrorKind) -> &'static str {
    match kind {
        ParseErrorKind::DuplicateKey => "toml.duplicate-key",
        ParseErrorKind::IntegerOverflow => "toml.integer-overflow",
        ParseErrorKind::InvalidEscape => "toml.invalid-escape",
        _ => "atml.syntax.parse-error",
    }
}

/// Where a parse failure is reported: its line and column, or the start.
pub open spec fn error_offset(b: Seq<u8>, e: ParseError) -> int {
    match e.location {
        Some((line, column)) => spec_line_column_to_byte(b, line, column),
        None => 0,
    }
}

/// The diagnostic of a parse failure: the character at its position.
pub open spec fn error_diagnostic(b: Seq<u8>, e: ParseError) -> DiagnosticView {
    let offset = error_offset(b, e);
    error(
        error_code(e.kind),
        e.message@,
        ByteRange { start: offset as usize, end: spec_next_char_boundary(b, offset) as usize },
    )
}

/// The diagnostic of a parse failure; its range lies on character boundaries.
pub fn diagnostic_from_error(source: &str, error: &ParseError) -> (d: Diagnostic)
    ensures
        diagnostics::diagnostic_view(d) == error_diagnostic(source.spec_bytes(), *error),
        d.range.start == error_offset(source.spec_bytes(), *error),
        d.range.start <= d.range.end <= source.spec_bytes().len(),
        is_char_boundary(source.spec_bytes(), d.range.start as int),
        is_char_boundary(source.spec_bytes(), d.range.end as int),
{
    proof {
        lemma_view_from_bytes(source);
        is_char_boundary_start_end_of_seq(source.spec_bytes());
    }
    let offset = match error.location {
        Some((line, column)) => line_column_to_byte(source, line, column),
        None => 0,
    };
    let end = next_char_boundary(source, offset);
    let code: &'static str = match error.kind {
        ParseErrorKind::DuplicateKey => "toml.duplicate-key",
        ParseErrorKind::IntegerOverflow => "toml.integer-overflow",
        ParseErrorKind::InvalidEscape => "toml.invalid-escape",
        _ => "atml.syntax.parse-error",
    };
    Diagnostic {
        code,
        severity: DiagnosticSeverity::Error,
        message: error.message.clone(),
        range: ByteRange { start: offset, end },
    }
}

// ---------------------------------------------------------------------------
// Analysis
// ---------------------------------------------------------------------------
/// `ds` holds, sorted by start offset and code, the diagnostics of
/// `unsorted`: for each key, the same diagnostics in the same order.
pub open spec fn sorted_from(ds: Seq<Diagnostic>, unsorted: Seq<DiagnosticView>) -> bool {
    &&& sorted_diagnostics(ds)
    &&& forall|k: (usize, Seq<char>)| #[trigger] views(ds).filter(view_with_key(k)) == unsorted.filter(view_with_key(k))
}

/// What indexing establishes of an index built from text `src`.
pub open spec fn built_index(src: Seq<u8>, index: SemanticIndex) -> bool {
    &&& index_shape(src, index)
    &&& resolved(index)
    &&& cycles_sound(index)
    &&& cycles_complete(index)
}

/// `a` analyzes document `doc`, read from text `src`, with `extra` diagnostics
/// besides the semantic ones.
pub open spec fn document_analysis(src: Seq<u8>, doc: DocModel, extra: Seq<DiagnosticView>, a: Analysis) -> bool {
    &&& a.semantic matches Some(index) && built_index(src, index) && indexes_document(src, doc, index)
        && sorted_from(a.diagnostics@, all_diagnostics(index) + extra)
    &&& symbol_forest(a.symbols@, outline_entries(src, doc))
}

/// `index` records what document `doc`, read from text `src`, defines and
/// references: its definitions, references, quantities and inheritance edges
/// are those that collecting the document's items yields.
pub open spec fn indexes_document(src: Seq<u8>, doc: DocModel, index: SemanticIndex) -> bool {
    &&& defs_view(index.definitions@) == collected(src, doc).0
    &&& refs_view(index.references@) == collected(src, doc).1
    &&& quants_view(index.quantities@) == collected(src, doc).2
    &&& edges_view(index.inheritance@) == collected(src, doc).3
}

/// The text of the first `n` bytes of `b`.
pub open spec fn prefix_text(b: Seq<u8>, n: int) -> Seq<char> {
    decode_utf8(b.subrange(0, n))
}

/// Trying line starts from `c` backwards, the first whose prefix parses.
pub open spec fn parsable_prefix(b: Seq<u8>, c: int) -> Option<int>
    decreases c,
{
    if atml_parse(prefix_text(b, c)) is Ok {
        Some(c)
    } else if c <= 0 {
        None
    } else {
        proof {
            lemma_line_start_before(b, c - 1);
        }
        parsable_prefix(b, line_start_before(b, c - 1))
    }
}

pub proof fn lemma_line_start_before(b: Seq<u8>, x: int)
    ensures
        x >= 0 ==> 0 <= line_start_before(b, x) <= x,
    decreases x,
{
    if x > 0 && b[x - 1] != 10 {
        lemma_line_start_before(b, x - 1);
    }
}

/// The analysis when the text does not parse: the longest prefix made of whole
/// lines before the failure that parses is analyzed, with the failure's
/// diagnostic added; when none parses, only that diagnostic and an empty index.
pub open spec fn prefix_analysis(src: Seq<u8>, e: ParseError, a: Analysis) -> bool {
    let syntax = error_diagnostic(src, e);
    let limit = if error_offset(src, e) < src.len() { error_offset(src, e) } else { src.len() as int };
    match parsable_prefix(src, line_start_before(src, limit)) {
        Some(c) => document_analysis(
            src.subrange(0, c),
            atml_parse(prefix_text(src, c))->Ok_0,
            seq![syntax],
            a,
        ),
        None => {
            &&& views(a.diagnostics@) == seq![syntax]
            &&& a.symbols@.len() == 0
            &&& a.semantic matches Some(index) && index.definitions@.len() == 0 && index.references@.len() == 0
                && index.quantities@.len() == 0 && index.inheritance@.len() == 0 && index.cycles@.len() == 0
        },
    }
}

/// The analysis of a document read from `source`.
pub fn analyze_document(source: &str, document: &AtmlDocument) -> (a: Analysis)
    ensures
        document_analysis(source.spec_bytes(), model_of(*document), Seq::empty(), a),
{
    let semantic = SemanticIndex::build(source, document);
    let diagnostics = semantic_diagnostics(&semantic);
    proof {
        assert(all_diagnostics(semantic) + Seq::<DiagnosticView>::empty() =~= all_diagnostics(semantic));
    }
    Analysis { diagnostics, symbols: collect_symbols(source, document), semantic: Some(semantic) }
}

/// Analysis of text that does not parse.
pub fn recover_valid_prefix(source: &str, error: &ParseError) -> (a: Analysis)
    ensures
        prefix_analysis(source.spec_bytes(), *error, a),
{
    let ghost bs = source.spec_bytes();
    let syntax = diagnostic_from_error(source, error);
    let b = source.as_bytes();
    proof {
        lemma_view_from_bytes(source);
        is_char_boundary_start_end_of_seq(bs);
    }
    let limit = if syntax.range.start < b.len() { syntax.range.start } else { b.len() };
    let mut boundary = match rfind_byte(b, 0, limit, 10) {
        Some(i) => i + 1,
        None => 0,
    };
    proof {
        lemma_last_byte_before(bs, limit as int, 10);
        if let Some(i) = last_byte_before(bs, limit as int, 10) {
            lemma_ascii_boundaries(bs, i);
        }
    }
    let ghost first = line_start_before(bs, limit as int);
    loop
        invariant
            b@ == bs,
            bs == source.spec_bytes(),
            valid_utf8(bs),
            boundary <= bs.len(),
            is_char_boundary(bs, boundary as int),
            parsable_prefix(bs, first) == parsable_prefix(bs, boundary as int),
            diagnostics::diagnostic_view(syntax) == error_diagnostic(bs, *error),
            first == line_start_before(bs, if error_offset(bs, *error) < bs.len() {
                error_offset(bs, *error)
            } else {
                bs.len() as int
            }),
        decreases boundary,
    {
        let prefix = substr(source, 0, boundary);
        proof {
            lemma_view_from_bytes(prefix);
            assert(prefix@ == prefix_text(bs, boundary as int));
        }
        match parse_atml(prefix) {
            Ok(document) => {
                let mut analysis = analyze_document(prefix, &document);
                let ghost before = analysis.diagnostics@;
                analysis.diagnostics.push(syntax);
                let sorted = sort_diagnostics(analysis.diagnostics);
                proof {
                    let index = analysis.semantic->Some_0;
                    let pushed = before.push(syntax);
                    assert forall|k: (usize, Seq<char>)|
                        #[trigger] views(sorted@).filter(view_with_key(k)) == (all_diagnostics(index) + seq![error_diagnostic(bs, *error)]).filter(view_with_key(k)) by {
                        lemma_views_filter(sorted@, k);
                        lemma_views_filter(pushed, k);
                        assert(sorted@.filter(with_key(k)) == pushed.filter(with_key(k)));
                        assert(views(pushed) =~= views(before) + seq![error_diagnostic(bs, *error)]);
                        Seq::filter_distributes_over_add(views(before), seq![error_diagnostic(bs, *error)], view_with_key(k));
                        Seq::filter_distributes_over_add(all_diagnostics(index), seq![error_diagnostic(bs, *error)], view_with_key(k));
                        assert(views(before).filter(view_with_key(k)) == (all_diagnostics(index) + Seq::<DiagnosticView>::empty()).filter(view_with_key(k)));
                        assert(all_diagnostics(index) + Seq::<DiagnosticView>::empty() =~= all_diagnostics(index));
                    }
                    assert(prefix.spec_bytes() == bs.subrange(0, boundary as int));
                }
                analysis.diagnostics = sorted;
                return analysis;
            },
            Err(_) => {},
        }
        if boundary == 0 {
            let mut diagnostics: Vec<Diagnostic> = Vec::new();
            diagnostics.push(syntax);
            proof {
                assert(views(diagnostics@) =~= seq![error_diagnostic(bs, *error)]);
            }
            return Analysis { diagnostics, symbols: Vec::new(), semantic: Some(SemanticIndex::default()) };
        }
        let next = match rfind_byte(b, 0, boundary - 1, 10) {
            Some(i) => i + 1,
            None => 0,
        };
        proof {
            lemma_last_byte_before(bs, boundary - 1, 10);
            if let Some(i) = last_byte_before(bs, boundary - 1, 10) {
                lemma_ascii_boundaries(bs, i);
            }
            assert(parsable_prefix(bs, boundary as int) == parsable_prefix(bs, next as int));
        }
        boundary = next;
    }
}

/// `a` is the analysis of text `text`: see `analyze`.
pub open spec fn analysis_of(text: Seq<char>, a: Analysis) -> bool {
    let src = encode_utf8(text);
    match atml_parse(text) {
        Ok(doc) => document_analysis(src, doc, Seq::empty(), a),
        Err(e) => if (e.kind == ParseErrorKind::KeyNotFound || e.kind == ParseErrorKind::CyclicPathRef)
            && reference_ranges(src).len() > 0 && atml_parse(recovered_text(src)) is Ok {
            document_analysis(src, atml_parse(recovered_text(src))->Ok_0, Seq::empty(), a)
        } else {
            prefix_analysis(src, e, a)
        },
    }
}

/// Every analysis has a semantic index.
pub proof fn lemma_analysis_has_index(text: Seq<char>, a: Analysis)
    requires
        analysis_of(text, a),
    ensures
        a.semantic is Some,
{
    let src = encode_utf8(text);
    encode_utf8_valid_utf8(text);
    if let Err(e) = atml_parse(text) {
        if !((e.kind == ParseErrorKind::KeyNotFound || e.kind == ParseErrorKind::CyclicPathRef)
            && reference_ranges(src).len() > 0 && atml_parse(recovered_text(src)) is Ok) {
            let limit = if error_offset(src, e) < src.len() { error_offset(src, e) } else { src.len() as int };
            match parsable_prefix(src, line_start_before(src, limit)) {
                Some(c) => {},
                None => {},
            }
        }
    }
}

/// The prefix that recovery analyzes ends at the start of a line.
proof fn lemma_parsable_prefix_line(b: Seq<u8>, x: int)
    requires
        0 <= x <= b.len(),
        x == 0 || b[x - 1] == 10,
    ensures
        parsable_prefix(b, x) matches Some(c) ==> 0 <= c <= x && (c == 0 || b[c - 1] == 10),
    decreases x,
{
    if atml_parse(prefix_text(b, x)) is Err && x > 0 {
        lemma_last_byte_before(b, x - 1, 10);
        lemma_line_start_before(b, x - 1);
        lemma_parsable_prefix_line(b, line_start_before(b, x - 1));
    }
}

/// A character boundary of a prefix that ends on a character boundary is one
/// of the whole text.
proof fn lemma_prefix_boundary(src: Seq<u8>, c: int, i: int)
    requires
        valid_utf8(src),
        0 <= c <= src.len(),
        is_char_boundary(src, c),
        is_char_boundary(src.subrange(0, c), i),
    ensures
        0 <= i <= c,
        is_char_boundary(src, i),
{
    let pre = src.subrange(0, c);
    valid_utf8_split(src, c);
    is_char_boundary_start_end_of_seq(src);
    if 0 < i < c {
        is_char_boundary_iff_not_is_continuation_byte(pre, i);
        is_char_boundary_iff_not_is_continuation_byte(src, i);
    }
}

proof fn lemma_prefix_located(src: Seq<u8>, c: int, r: ByteRange)
    requires
        valid_utf8(src),
        0 <= c <= src.len(),
        is_char_boundary(src, c),
        crate::builder::located(src.subrange(0, c), r),
    ensures
        crate::builder::located(src, r),
        r.end <= c,
        src.subrange(0, c).subrange(r.start as int, r.end as int) == src.subrange(r.start as int, r.end as int),
{
    lemma_prefix_boundary(src, c, r.start as int);
    lemma_prefix_boundary(src, c, r.end as int);
    assert(src.subrange(0, c).subrange(r.start as int, r.end as int) =~= src.subrange(r.start as int, r.end as int));
}

/// What an index places in a prefix of the text that ends on a character
/// boundary, it places in the whole text.
proof fn lemma_shape_in_longer_text(src: Seq<u8>, c: int, index: SemanticIndex)
    requires
        valid_utf8(src),
        0 <= c <= src.len(),
        is_char_boundary(src, c),
        index_shape(src.subrange(0, c), index),
    ensures
        index_shape(src, index),
{
    let pre = src.subrange(0, c);
    assert forall|i: int| 0 <= i < index.definitions@.len() implies crate::builder::located(
        src,
        (#[trigger] index.definitions@[i]).selection_range,
    ) by {
        lemma_prefix_located(src, c, index.definitions@[i].selection_range);
    }
    assert forall|i: int| 0 <= i < index.references@.len() implies {
        let r = #[trigger] index.references@[i];
        &&& r.kind != crate::semantic::ReferenceKind::Inheritance
        &&& crate::builder::located(src, r.range)
        &&& r.kind == crate::semantic::ReferenceKind::Path ==> crate::semantic::spec_is_path_reference_target(r.target_path@)
            && crate::builder::target_written(src, r)
        &&& r.kind == crate::semantic::ReferenceKind::EnumMember ==> r.target_path@.len() >= 1
    } by {
        lemma_prefix_located(src, c, index.references@[i].range);
    }
    assert forall|i: int| 0 <= i < index.quantities@.len() implies crate::builder::quantity_placed(
        src,
        #[trigger] index.quantities@[i],
    ) by {
        let q = index.quantities@[i];
        assert(crate::builder::quantity_placed(pre, q));
        lemma_prefix_located(src, c, q.range);
        lemma_prefix_boundary(src, c, crate::editing::quantity_number_end(q));
    }
    assert forall|i: int| 0 <= i < index.inheritance@.len() implies crate::builder::located(
        src,
        (#[trigger] index.inheritance@[i]).range,
    ) by {
        lemma_prefix_located(src, c, index.inheritance@[i].range);
    }
}

/// The index of the analysis of a text that does not parse places its
/// ranges in the text.
proof fn lemma_prefix_analysis_placed(src: Seq<u8>, e: ParseError, a: Analysis)
    requires
        valid_utf8(src),
        prefix_analysis(src, e, a),
    ensures
        a.semantic matches Some(index) && index_shape(src, index),
{
    let limit = if error_offset(src, e) < src.len() { error_offset(src, e) } else { src.len() as int };
    let c0 = line_start_before(src, limit);
    lemma_last_byte_before(src, limit, 10);
    lemma_parsable_prefix_line(src, c0);
    match parsable_prefix(src, c0) {
        Some(c) => {
            if c > 0 {
                lemma_ascii_boundaries(src, c - 1);
            }
            is_char_boundary_start_end_of_seq(src);
            lemma_shape_in_longer_text(src, c, a.semantic->Some_0);
        },
        None => {},
    }
}

/// Every range that the index of an analysis records lies in the analyzed
/// text on character boundaries, so that the text can be sliced there.
pub proof fn lemma_analysis_placed(text: Seq<char>, a: Analysis)
    requires
        analysis_of(text, a),
    ensures
        a.semantic matches Some(index) && index_shape(encode_utf8(text), index),
{
    let src = encode_utf8(text);
    assert(valid_utf8(src)) by {
        encode_utf8_valid_utf8(text);
    }
    if let Err(e) = atml_parse(text) {
        if !((e.kind == ParseErrorKind::KeyNotFound || e.kind == ParseErrorKind::CyclicPathRef)
            && reference_ranges(src).len() > 0 && atml_parse(recovered_text(src)) is Ok) {
            lemma_prefix_analysis_placed(src, e, a);
        }
    }
}

/// The index of an analysis of a text meets what `semantic_tokens`,
/// `rename`, `prepare_rename` and (for a text shorter than the largest
/// offset) `hover` ask of it with that text.
pub proof fn lemma_analysis_sliceable(text: Seq<char>, a: Analysis, offset: int)
    requires
        analysis_of(text, a),
    ensures
        a.semantic matches Some(index) && crate::editing::tokens_sliceable(encode_utf8(text), index)
            && crate::editing::rename_sliceable(encode_utf8(text), index, offset) && (encode_utf8(text).len()
            < usize::MAX ==> crate::navigation::hover_sliceable(encode_utf8(text), index)),
{
    lemma_analysis_placed(text, a);
    let index = a.semantic->Some_0;
    crate::editing::lemma_shape_tokens_sliceable(encode_utf8(text), index);
    crate::editing::lemma_shape_rename_sliceable(encode_utf8(text), index, offset);
    if encode_utf8(text).len() < usize::MAX {
        crate::navigation::lemma_shape_hover_sliceable(encode_utf8(text), index);
    }
}

/// Every diagnostic in `ds` has its range in the text on character boundaries.
pub open spec fn diagnostics_located(src: Seq<u8>, ds: Seq<DiagnosticView>) -> bool {
    forall|i: int| 0 <= i < ds.len() ==> crate::builder::located(src, (#[trigger] ds[i]).3)
}

proof fn lemma_located_concat(src: Seq<u8>, a: Seq<DiagnosticView>, b: Seq<DiagnosticView>)
    requires
        diagnostics_located(src, a),
        diagnostics_located(src, b),
    ensures
        diagnostics_located(src, a + b),
{
    assert forall|i: int| 0 <= i < (a + b).len() implies crate::builder::located(src, (#[trigger] (a + b)[i]).3) by {
        if i < a.len() {
            assert((a + b)[i] == a[i]);
        } else {
            assert((a + b)[i] == b[i - a.len()]);
        }
    }
}

proof fn lemma_reference_diagnostics_located(src: Seq<u8>, index: SemanticIndex, n: int)
    requires
        index_shape(src, index),
        n <= index.references@.len(),
    ensures
        diagnostics_located(src, crate::diagnostics::reference_diagnostics(index, n)),
    decreases n,
{
    if n > 0 {
        lemma_reference_diagnostics_located(src, index, n - 1);
        let r = index.references@[n - 1];
        assert(crate::builder::located(src, r.range));
        lemma_located_concat(
            src,
            crate::diagnostics::reference_diagnostics(index, n - 1),
            crate::diagnostics::reference_diagnostic(index, r),
        );
    }
}

proof fn lemma_edge_diagnostics_located(src: Seq<u8>, index: SemanticIndex, n: int)
    requires
        index_shape(src, index),
        n <= index.inheritance@.len(),
    ensures
        diagnostics_located(src, crate::diagnostics::edge_diagnostics(index, n)),
    decreases n,
{
    if n > 0 {
        lemma_edge_diagnostics_located(src, index, n - 1);
        let e = index.inheritance@[n - 1];
        assert(crate::builder::located(src, e.range));
        lemma_located_concat(
            src,
            crate::diagnostics::edge_diagnostics(index, n - 1),
            crate::diagnostics::edge_diagnostic(index, e),
        );
    }
}

proof fn lemma_first_reference_range_located(src: Seq<u8>, index: SemanticIndex, p: Seq<Seq<char>>, i: int)
    requires
        index_shape(src, index),
    ensures
        crate::diagnostics::first_reference_range(index.references@, p, i) matches Some(r) ==> crate::builder::located(
            src,
            r,
        ),
    decreases index.references@.len() - i,
{
    if 0 <= i < index.references@.len() {
        assert(crate::builder::located(src, index.references@[i].range));
        lemma_first_reference_range_located(src, index, p, i + 1);
    }
}

proof fn lemma_first_edge_range_located(src: Seq<u8>, index: SemanticIndex, p: Seq<Seq<char>>, i: int)
    requires
        index_shape(src, index),
    ensures
        crate::diagnostics::first_edge_range(index.inheritance@, p, i) matches Some(r) ==> crate::builder::located(
            src,
            r,
        ),
    decreases index.inheritance@.len() - i,
{
    if 0 <= i < index.inheritance@.len() {
        assert(crate::builder::located(src, index.inheritance@[i].range));
        lemma_first_edge_range_located(src, index, p, i + 1);
    }
}

proof fn lemma_cycle_diagnostics_located(
    src: Seq<u8>,
    index: SemanticIndex,
    c: int,
    p: int,
    reported: Set<(Seq<char>, ByteRange)>,
)
    requires
        index_shape(src, index),
    ensures
        diagnostics_located(src, crate::diagnostics::cycle_diagnostics(index, c, p, reported)),
    decreases index.cycles@.len() - c, index.cycles@[c].paths@.len() - p,
{
    if 0 <= c < index.cycles@.len() {
        let cycle = index.cycles@[c];
        if p < 0 || p + 1 >= cycle.paths@.len() {
            lemma_cycle_diagnostics_located(src, index, c + 1, 0, reported);
        } else {
            let code = crate::diagnostics::cycle_code(cycle.kind);
            let path = crate::paths::pv(cycle.paths@[p]@);
            lemma_first_reference_range_located(src, index, path, 0);
            lemma_first_edge_range_located(src, index, path, 0);
            match crate::diagnostics::cycle_location(index, cycle.kind, path) {
                Some(range) => if reported.contains((code@, range)) {
                    lemma_cycle_diagnostics_located(src, index, c, p + 1, reported);
                } else {
                    lemma_cycle_diagnostics_located(src, index, c, p + 1, reported.insert((code@, range)));
                    lemma_located_concat(
                        src,
                        seq![error(code, crate::diagnostics::cycle_message(cycle), range)],
                        crate::diagnostics::cycle_diagnostics(index, c, p + 1, reported.insert((code@, range))),
                    );
                },
                None => {
                    lemma_cycle_diagnostics_located(src, index, c, p + 1, reported);
                },
            }
        }
    }
}

/// The semantic diagnostics of an index point where the index places its
/// ranges: into the text, on character boundaries.
pub proof fn lemma_semantic_diagnostics_located(src: Seq<u8>, index: SemanticIndex)
    requires
        index_shape(src, index),
    ensures
        diagnostics_located(src, all_diagnostics(index)),
{
    lemma_reference_diagnostics_located(src, index, index.references@.len() as int);
    lemma_edge_diagnostics_located(src, index, index.inheritance@.len() as int);
    lemma_cycle_diagnostics_located(src, index, 0, 0, Set::empty());
    lemma_located_concat(
        src,
        crate::diagnostics::reference_diagnostics(index, index.references@.len() as int),
        crate::diagnostics::edge_diagnostics(index, index.inheritance@.len() as int),
    );
    lemma_located_concat(
        src,
        crate::diagnostics::reference_diagnostics(index, index.references@.len() as int)
            + crate::diagnostics::edge_diagnostics(index, index.inheritance@.len() as int),
        crate::diagnostics::cycle_diagnostics(index, 0, 0, Set::empty()),
    );
}

/// Sorting keeps only diagnostics that were there.
proof fn lemma_sorted_members(ds: Seq<Diagnostic>, u: Seq<DiagnosticView>, i: int)
    requires
        sorted_from(ds, u),
        0 <= i < ds.len(),
    ensures
        u.contains(diagnostics::diagnostic_view(ds[i])),
{
    let v = views(ds);
    let k = (v[i].3.start, v[i].0);
    v.lemma_filter_contains(view_with_key(k), i);
    assert(v.filter(view_with_key(k)) == u.filter(view_with_key(k)));
    u.lemma_filter_contains_rev(view_with_key(k), v[i]);
}

/// Each diagnostic of an analysis of a text points into the text on
/// character boundaries, or is the diagnostic of the text's parse failure.
pub proof fn lemma_analysis_diagnostics_located(text: Seq<char>, a: Analysis)
    requires
        analysis_of(text, a),
    ensures
        forall|i: int|
            0 <= i < a.diagnostics@.len() ==> crate::builder::located(encode_utf8(text), (#[trigger] a.diagnostics@[i]).range)
                || (atml_parse(text) matches Err(e) && diagnostics::diagnostic_view(a.diagnostics@[i]) == error_diagnostic(
                encode_utf8(text),
                e,
            )),
{
    let src = encode_utf8(text);
    lemma_analysis_placed(text, a);
    let index = a.semantic->Some_0;
    lemma_semantic_diagnostics_located(src, index);
    assert forall|i: int| 0 <= i < a.diagnostics@.len() implies crate::builder::located(src, (#[trigger] a.diagnostics@[i]).range)
        || (atml_parse(text) matches Err(e) && diagnostics::diagnostic_view(a.diagnostics@[i]) == error_diagnostic(src, e)) by {
        let d = diagnostics::diagnostic_view(a.diagnostics@[i]);
        let all = all_diagnostics(index);
        match atml_parse(text) {
            Ok(doc) => {
                lemma_sorted_members(a.diagnostics@, all + Seq::<DiagnosticView>::empty(), i);
                assert(all + Seq::<DiagnosticView>::empty() =~= all);
            },
            Err(e) => {
                if (e.kind == ParseErrorKind::KeyNotFound || e.kind == ParseErrorKind::CyclicPathRef)
                    && reference_ranges(src).len() > 0 && atml_parse(recovered_text(src)) is Ok {
                    lemma_sorted_members(a.diagnostics@, all + Seq::<DiagnosticView>::empty(), i);
                    assert(all + Seq::<DiagnosticView>::empty() =~= all);
                } else {
                    let limit = if error_offset(src, e) < src.len() { error_offset(src, e) } else { src.len() as int };
                    match parsable_prefix(src, line_start_before(src, limit)) {
                        Some(c) => {
                            let u = all + seq![error_diagnostic(src, e)];
                            lemma_sorted_members(a.diagnostics@, u, i);
                            let j = choose|j: int| 0 <= j < u.len() && u[j] == d;
                            if j < all.len() {
                                assert(u[j] == all[j]);
                            }
                        },
                        None => {
                            assert(views(a.diagnostics@)[i] == d);
                        },
                    }
                }
            },
        }
    }
}

/// The stable diagnostic codes.
pub open spec fn stable_code(c: Seq<char>) -> bool {
    ||| c == "atml.syntax.parse-error"@
    ||| c == "toml.duplicate-key"@
    ||| c == "toml.integer-overflow"@
    ||| c == "toml.invalid-escape"@
    ||| c == "atml.reference.unknown-target"@
    ||| c == "atml.reference.cycle"@
    ||| c == "atml.enum.unknown-definition"@
    ||| c == "atml.enum.unknown-member"@
    ||| c == "atml.enum.used-before-definition"@
    ||| c == "atml.inheritance.unknown-parent"@
    ||| c == "atml.inheritance.invalid-parent-type"@
    ||| c == "atml.inheritance.cycle"@
}

/// Every diagnostic in `ds` is an error with a stable code.
pub open spec fn stable_errors(ds: Seq<DiagnosticView>) -> bool {
    forall|i: int| 0 <= i < ds.len() ==> (#[trigger] ds[i]).1 == DiagnosticSeverity::Error && stable_code(ds[i].0)
}

proof fn lemma_stable_concat(a: Seq<DiagnosticView>, b: Seq<DiagnosticView>)
    requires
        stable_errors(a),
        stable_errors(b),
    ensures
        stable_errors(a + b),
{
    assert forall|i: int| 0 <= i < (a + b).len() implies (#[trigger] (a + b)[i]).1 == DiagnosticSeverity::Error
        && stable_code((a + b)[i].0) by {
        if i < a.len() {
            assert((a + b)[i] == a[i]);
        } else {
            assert((a + b)[i] == b[i - a.len()]);
        }
    }
}

proof fn lemma_reference_diagnostics_stable(index: SemanticIndex, n: int)
    requires
        n <= index.references@.len(),
    ensures
        stable_errors(crate::diagnostics::reference_diagnostics(index, n)),
    decreases n,
{
    if n > 0 {
        lemma_reference_diagnostics_stable(index, n - 1);
        let r = index.references@[n - 1];
        lemma_stable_concat(
            crate::diagnostics::reference_diagnostics(index, n - 1),
            crate::diagnostics::reference_diagnostic(index, r),
        );
    }
}

proof fn lemma_edge_diagnostics_stable(index: SemanticIndex, n: int)
    requires
        n <= index.inheritance@.len(),
    ensures
        stable_errors(crate::diagnostics::edge_diagnostics(index, n)),
    decreases n,
{
    if n > 0 {
        lemma_edge_diagnostics_stable(index, n - 1);
        lemma_stable_concat(
            crate::diagnostics::edge_diagnostics(index, n - 1),
            crate::diagnostics::edge_diagnostic(index, index.inheritance@[n - 1]),
        );
    }
}

proof fn lemma_cycle_diagnostics_stable(index: SemanticIndex, c: int, p: int, reported: Set<(Seq<char>, ByteRange)>)
    ensures
        stable_errors(crate::diagnostics::cycle_diagnostics(index, c, p, reported)),
    decreases index.cycles@.len() - c, index.cycles@[c].paths@.len() - p,
{
    if 0 <= c < index.cycles@.len() {
        let cycle = index.cycles@[c];
        if p < 0 || p + 1 >= cycle.paths@.len() {
            lemma_cycle_diagnostics_stable(index, c + 1, 0, reported);
        } else {
            let code = crate::diagnostics::cycle_code(cycle.kind);
            let path = crate::paths::pv(cycle.paths@[p]@);
            match crate::diagnostics::cycle_location(index, cycle.kind, path) {
                Some(range) => if reported.contains((code@, range)) {
                    lemma_cycle_diagnostics_stable(index, c, p + 1, reported);
                } else {
                    lemma_cycle_diagnostics_stable(index, c, p + 1, reported.insert((code@, range)));
                    lemma_stable_concat(
                        seq![error(code, crate::diagnostics::cycle_message(cycle), range)],
                        crate::diagnostics::cycle_diagnostics(index, c, p + 1, reported.insert((code@, range))),
                    );
                },
                None => {
                    lemma_cycle_diagnostics_stable(index, c, p + 1, reported);
                },
            }
        }
    }
}

/// Every semantic diagnostic is an error with a stable code.
pub proof fn lemma_semantic_diagnostics_stable(index: SemanticIndex)
    ensures
        stable_errors(all_diagnostics(index)),
{
    lemma_reference_diagnostics_stable(index, index.references@.len() as int);
    lemma_edge_diagnostics_stable(index, index.inheritance@.len() as int);
    lemma_cycle_diagnostics_stable(index, 0, 0, Set::empty());
    lemma_stable_concat(
        crate::diagnostics::reference_diagnostics(index, index.references@.len() as int),
        crate::diagnostics::edge_diagnostics(index, index.inheritance@.len() as int),
    );
    lemma_stable_concat(
        crate::diagnostics::reference_diagnostics(index, index.references@.len() as int)
            + crate::diagnostics::edge_diagnostics(index, index.inheritance@.len() as int),
        crate::diagnostics::cycle_diagnostics(index, 0, 0, Set::empty()),
    );
}

/// Every analysis has a semantic index, and its diagnostics are errors with
/// stable codes, sorted by start offset and code.
pub proof fn lemma_analysis_diagnostics_stable(text: Seq<char>, a: Analysis)
    requires
        analysis_of(text, a),
    ensures
        a.semantic is Some,
        sorted_diagnostics(a.diagnostics@),
        stable_errors(views(a.diagnostics@)),
{
    let src = encode_utf8(text);
    lemma_analysis_has_index(text, a);
    let index = a.semantic->Some_0;
    lemma_semantic_diagnostics_stable(index);
    let ds = a.diagnostics@;
    assert forall|i: int| 0 <= i < views(ds).len() implies (#[trigger] views(ds)[i]).1 == DiagnosticSeverity::Error
        && stable_code(views(ds)[i].0) by {
        let d = views(ds)[i];
        let all = all_diagnostics(index);
        match atml_parse(text) {
            Ok(doc) => {
                lemma_sorted_members(ds, all + Seq::<DiagnosticView>::empty(), i);
                assert(all + Seq::<DiagnosticView>::empty() =~= all);
            },
            Err(e) => {
                if (e.kind == ParseErrorKind::KeyNotFound || e.kind == ParseErrorKind::CyclicPathRef)
                    && reference_ranges(src).len() > 0 && atml_parse(recovered_text(src)) is Ok {
                    lemma_sorted_members(ds, all + Seq::<DiagnosticView>::empty(), i);
                    assert(all + Seq::<DiagnosticView>::empty() =~= all);
                } else {
                    let limit = if error_offset(src, e) < src.len() { error_offset(src, e) } else { src.len() as int };
                    match parsable_prefix(src, line_start_before(src, limit)) {
                        Some(c) => {
                            let u = all + seq![error_diagnostic(src, e)];
                            lemma_sorted_members(ds, u, i);
                            let j = choose|j: int| 0 <= j < u.len() && u[j] == d;
                            if j < all.len() {
                                assert(u[j] == all[j]);
                            }
                        },
                        None => {},
                    }
                }
            },
        }
    }
}

/// Holds of the diagnostics with code `c`.
pub open spec fn with_code(c: Seq<char>) -> spec_fn(DiagnosticView) -> bool {
    |v: DiagnosticView| v.0 == c
}

/// One unknown-target diagnostic per path reference, among the first `n`,
/// that names no definition, at the reference's range.
pub open spec fn unknown_target_diagnostics(index: SemanticIndex, n: int) -> Seq<DiagnosticView>
    decreases n,
{
    if n <= 0 {
        Seq::empty()
    } else {
        let r = index.references@[n - 1];
        unknown_target_diagnostics(index, n - 1) + if r.kind == crate::semantic::ReferenceKind::Path && r.target is None {
            seq![
                error(
                    "atml.reference.unknown-target",
                    "unknown ATML reference target '"@ + crate::diagnostics::dotted(r.target_path@) + "'"@,
                    r.range,
                ),
            ]
        } else {
            Seq::empty()
        }
    }
}

/// The stable codes other than the unknown-target one differ from it.
proof fn lemma_codes_differ()
    ensures
        "atml.enum.unknown-member"@ != "atml.reference.unknown-target"@,
        "atml.enum.unknown-definition"@ != "atml.reference.unknown-target"@,
        "atml.enum.used-before-definition"@ != "atml.reference.unknown-target"@,
        "atml.inheritance.unknown-parent"@ != "atml.reference.unknown-target"@,
        "atml.inheritance.invalid-parent-type"@ != "atml.reference.unknown-target"@,
        "atml.reference.cycle"@ != "atml.reference.unknown-target"@,
        "atml.inheritance.cycle"@ != "atml.reference.unknown-target"@,
{
    reveal_strlit("atml.reference.unknown-target");
    reveal_strlit("atml.enum.unknown-member");
    reveal_strlit("atml.enum.unknown-definition");
    reveal_strlit("atml.enum.used-before-definition");
    reveal_strlit("atml.inheritance.unknown-parent");
    reveal_strlit("atml.inheritance.invalid-parent-type");
    reveal_strlit("atml.reference.cycle");
    reveal_strlit("atml.inheritance.cycle");
    assert("atml.enum.unknown-member"@.len() != "atml.reference.unknown-target"@.len());
    assert("atml.enum.unknown-definition"@.len() != "atml.reference.unknown-target"@.len());
    assert("atml.enum.used-before-definition"@.len() != "atml.reference.unknown-target"@.len());
    assert("atml.inheritance.unknown-parent"@.len() != "atml.reference.unknown-target"@.len());
    assert("atml.inheritance.invalid-parent-type"@.len() != "atml.reference.unknown-target"@.len());
    assert("atml.reference.cycle"@.len() != "atml.reference.unknown-target"@.len());
    assert("atml.inheritance.cycle"@.len() != "atml.reference.unknown-target"@.len());
}

proof fn lemma_filter_one(x: DiagnosticView, p: spec_fn(DiagnosticView) -> bool)
    ensures
        seq![x].filter(p) == if p(x) {
            seq![x]
        } else {
            Seq::<DiagnosticView>::empty()
        },
{
    reveal(Seq::filter);
    assert(seq![x].drop_last() =~= Seq::<DiagnosticView>::empty());
    assert(Seq::<DiagnosticView>::empty().filter(p) =~= Seq::<DiagnosticView>::empty());
}

proof fn lemma_empty_filter(p: spec_fn(DiagnosticView) -> bool)
    ensures
        Seq::<DiagnosticView>::empty().filter(p) == Seq::<DiagnosticView>::empty(),
{
    reveal(Seq::filter);
}

proof fn lemma_reference_diagnostics_unknown(index: SemanticIndex, n: int)
    requires
        n <= index.references@.len(),
    ensures
        crate::diagnostics::reference_diagnostics(index, n).filter(with_code("atml.reference.unknown-target"@))
            == unknown_target_diagnostics(index, n),
    decreases n,
{
    let p = with_code("atml.reference.unknown-target"@);
    if n <= 0 {
        lemma_empty_filter(p);
    } else {
        lemma_reference_diagnostics_unknown(index, n - 1);
        let r = index.references@[n - 1];
        let here = crate::diagnostics::reference_diagnostic(index, r);
        Seq::filter_distributes_over_add(crate::diagnostics::reference_diagnostics(index, n - 1), here, p);
        lemma_empty_filter(p);
        if here.len() == 1 {
            lemma_filter_one(here[0], p);
            assert(here =~= seq![here[0]]);
            lemma_codes_differ();
        } else {
            assert(here =~= Seq::<DiagnosticView>::empty());
        }
    }
}

proof fn lemma_none_with_code(s: Seq<DiagnosticView>, c: Seq<char>)
    requires
        forall|i: int| 0 <= i < s.len() ==> (#[trigger] s[i]).0 != c,
    ensures
        s.filter(with_code(c)) == Seq::<DiagnosticView>::empty(),
{
    let p = with_code(c);
    assert(s.all(|v: DiagnosticView| !p(v)));
    s.lemma_all_neg_filter_empty(p);
    assert(s.filter(p) =~= Seq::<DiagnosticView>::empty());
}

proof fn lemma_edge_diagnostic_codes(index: SemanticIndex, n: int)
    requires
        n <= index.inheritance@.len(),
    ensures
        forall|i: int|
            0 <= i < crate::diagnostics::edge_diagnostics(index, n).len() ==> (#[trigger] crate::diagnostics::edge_diagnostics(
                index,
                n,
            )[i]).0 == "atml.inheritance.unknown-parent"@ || crate::diagnostics::edge_diagnostics(index, n)[i].0
                == "atml.inheritance.invalid-parent-type"@,
    decreases n,
{
    if n > 0 {
        lemma_edge_diagnostic_codes(index, n - 1);
        let a = crate::diagnostics::edge_diagnostics(index, n - 1);
        let b = crate::diagnostics::edge_diagnostic(index, index.inheritance@[n - 1]);
        assert forall|i: int| 0 <= i < (a + b).len() implies (#[trigger] (a + b)[i]).0 == "atml.inheritance.unknown-parent"@
            || (a + b)[i].0 == "atml.inheritance.invalid-parent-type"@ by {
            if i < a.len() {
                assert((a + b)[i] == a[i]);
            } else {
                assert((a + b)[i] == b[i - a.len()]);
            }
        }
    }
}

proof fn lemma_cycle_diagnostic_codes(index: SemanticIndex, c: int, p: int, reported: Set<(Seq<char>, ByteRange)>)
    ensures
        forall|i: int|
            0 <= i < crate::diagnostics::cycle_diagnostics(index, c, p, reported).len() ==> (
            #[trigger] crate::diagnostics::cycle_diagnostics(index, c, p, reported)[i]).0 == "atml.reference.cycle"@
                || crate::diagnostics::cycle_diagnostics(index, c, p, reported)[i].0 == "atml.inheritance.cycle"@,
    decreases index.cycles@.len() - c, index.cycles@[c].paths@.len() - p,
{
    if 0 <= c < index.cycles@.len() {
        let cycle = index.cycles@[c];
        if p < 0 || p + 1 >= cycle.paths@.len() {
            lemma_cycle_diagnostic_codes(index, c + 1, 0, reported);
            assert(crate::diagnostics::cycle_diagnostics(index, c, p, reported)
                == crate::diagnostics::cycle_diagnostics(index, c + 1, 0, reported));
        } else {
            let code = crate::diagnostics::cycle_code(cycle.kind);
            let path = crate::paths::pv(cycle.paths@[p]@);
            match crate::diagnostics::cycle_location(index, cycle.kind, path) {
                Some(range) => if reported.contains((code@, range)) {
                    lemma_cycle_diagnostic_codes(index, c, p + 1, reported);
                    assert(crate::diagnostics::cycle_diagnostics(index, c, p, reported)
                        == crate::diagnostics::cycle_diagnostics(index, c, p + 1, reported));
                } else {
                    lemma_cycle_diagnostic_codes(index, c, p + 1, reported.insert((code@, range)));
                    let a = seq![error(code, crate::diagnostics::cycle_message(cycle), range)];
                    let b = crate::diagnostics::cycle_diagnostics(index, c, p + 1, reported.insert((code@, range)));
                    assert(code@ == "atml.reference.cycle"@ || code@ == "atml.inheritance.cycle"@) by {
                        match cycle.kind {
                            crate::semantic::CycleKind::PathReference => {},
                            crate::semantic::CycleKind::Inheritance => {},
                        }
                    }
                    assert(crate::diagnostics::cycle_diagnostics(index, c, p, reported) == a + b);
                    assert forall|i: int| 0 <= i < (a + b).len() implies (#[trigger] (a + b)[i]).0 == "atml.reference.cycle"@
                        || (a + b)[i].0 == "atml.inheritance.cycle"@ by {
                        if i < a.len() {
                            assert((a + b)[i] == a[i]);
                        } else {
                            assert((a + b)[i] == b[i - a.len()]);
                        }
                    }
                },
                None => {
                    lemma_cycle_diagnostic_codes(index, c, p + 1, reported);
                    assert(crate::diagnostics::cycle_diagnostics(index, c, p, reported)
                        == crate::diagnostics::cycle_diagnostics(index, c, p + 1, reported));
                },
            }
        }
    }
}

/// The definition an inheritance edge's parent names, if any.
pub open spec fn edge_parent_definition(index: SemanticIndex, e: crate::semantic::InheritanceEdge) -> Option<
    crate::semantic::Definition,
> {
    match e.parent {
        Some(id) => crate::semantic::spec_definition(index, id),
        None => None,
    }
}

/// One unknown-parent diagnostic per inheritance edge, among the first `n`,
/// whose parent names no definition, at the edge's range.
pub open spec fn unknown_parent_diagnostics(index: SemanticIndex, n: int) -> Seq<DiagnosticView>
    decreases n,
{
    if n <= 0 {
        Seq::empty()
    } else {
        let e = index.inheritance@[n - 1];
        unknown_parent_diagnostics(index, n - 1) + if edge_parent_definition(index, e) is None {
            seq![
                error(
                    "atml.inheritance.unknown-parent",
                    "unknown ATML parent table '"@ + crate::diagnostics::dotted(e.parent_path@) + "'"@,
                    e.range,
                ),
            ]
        } else {
            Seq::empty()
        }
    }
}

/// One invalid-parent-type diagnostic per inheritance edge, among the first
/// `n`, whose parent is a definition other than a standard table, at the
/// edge's range.
pub open spec fn invalid_parent_diagnostics(index: SemanticIndex, n: int) -> Seq<DiagnosticView>
    decreases n,
{
    if n <= 0 {
        Seq::empty()
    } else {
        let e = index.inheritance@[n - 1];
        invalid_parent_diagnostics(index, n - 1) + if edge_parent_definition(index, e) matches Some(d) && d.kind
            != crate::semantic::DefinitionKind::Table {
            seq![
                error(
                    "atml.inheritance.invalid-parent-type",
                    "ATML parent '"@ + crate::diagnostics::dotted(e.parent_path@) + "' must be a standard table"@,
                    e.range,
                ),
            ]
        } else {
            Seq::empty()
        }
    }
}

/// The parent codes differ from each other and from the codes of references
/// and cycles.
proof fn lemma_parent_codes_differ()
    ensures
        "atml.inheritance.unknown-parent"@ != "atml.inheritance.invalid-parent-type"@,
        "atml.reference.unknown-target"@ != "atml.inheritance.unknown-parent"@,
        "atml.enum.unknown-member"@ != "atml.inheritance.unknown-parent"@,
        "atml.enum.unknown-definition"@ != "atml.inheritance.unknown-parent"@,
        "atml.enum.used-before-definition"@ != "atml.inheritance.unknown-parent"@,
        "atml.reference.cycle"@ != "atml.inheritance.unknown-parent"@,
        "atml.inheritance.cycle"@ != "atml.inheritance.unknown-parent"@,
        "atml.reference.unknown-target"@ != "atml.inheritance.invalid-parent-type"@,
        "atml.enum.unknown-member"@ != "atml.inheritance.invalid-parent-type"@,
        "atml.enum.unknown-definition"@ != "atml.inheritance.invalid-parent-type"@,
        "atml.enum.used-before-definition"@ != "atml.inheritance.invalid-parent-type"@,
        "atml.reference.cycle"@ != "atml.inheritance.invalid-parent-type"@,
        "atml.inheritance.cycle"@ != "atml.inheritance.invalid-parent-type"@,
{
    reveal_strlit("atml.reference.unknown-target");
    reveal_strlit("atml.enum.unknown-member");
    reveal_strlit("atml.enum.unknown-definition");
    reveal_strlit("atml.enum.used-before-definition");
    reveal_strlit("atml.inheritance.unknown-parent");
    reveal_strlit("atml.inheritance.invalid-parent-type");
    reveal_strlit("atml.reference.cycle");
    reveal_strlit("atml.inheritance.cycle");
    assert("atml.inheritance.unknown-parent"@.len() != "atml.inheritance.invalid-parent-type"@.len());
    assert("atml.reference.unknown-target"@.len() != "atml.inheritance.unknown-parent"@.len());
    assert("atml.enum.unknown-member"@.len() != "atml.inheritance.unknown-parent"@.len());
    assert("atml.enum.unknown-definition"@.len() != "atml.inheritance.unknown-parent"@.len());
    assert("atml.enum.used-before-definition"@[5] != "atml.inheritance.unknown-parent"@[5]);
    assert("atml.reference.cycle"@.len() != "atml.inheritance.unknown-parent"@.len());
    assert("atml.inheritance.cycle"@.len() != "atml.inheritance.unknown-parent"@.len());
    assert("atml.reference.unknown-target"@.len() != "atml.inheritance.invalid-parent-type"@.len());
    assert("atml.enum.unknown-member"@.len() != "atml.inheritance.invalid-parent-type"@.len());
    assert("atml.enum.unknown-definition"@.len() != "atml.inheritance.invalid-parent-type"@.len());
    assert("atml.enum.used-before-definition"@.len() != "atml.inheritance.invalid-parent-type"@.len());
    assert("atml.reference.cycle"@.len() != "atml.inheritance.invalid-parent-type"@.len());
    assert("atml.inheritance.cycle"@.len() != "atml.inheritance.invalid-parent-type"@.len());
}

proof fn lemma_reference_diagnostic_codes(index: SemanticIndex, n: int)
    requires
        n <= index.references@.len(),
    ensures
        forall|i: int|
            0 <= i < crate::diagnostics::reference_diagnostics(index, n).len() ==> {
                let c = (#[trigger] crate::diagnostics::reference_diagnostics(index, n)[i]).0;
                c == "atml.reference.unknown-target"@ || c == "atml.enum.unknown-member"@ || c
                    == "atml.enum.unknown-definition"@ || c == "atml.enum.used-before-definition"@
            },
    decreases n,
{
    if n > 0 {
        lemma_reference_diagnostic_codes(index, n - 1);
        let a = crate::diagnostics::reference_diagnostics(index, n - 1);
        let b = crate::diagnostics::reference_diagnostic(index, index.references@[n - 1]);
        assert forall|i: int| 0 <= i < (a + b).len() implies {
            let c = (#[trigger] (a + b)[i]).0;
            c == "atml.reference.unknown-target"@ || c == "atml.enum.unknown-member"@ || c
                == "atml.enum.unknown-definition"@ || c == "atml.enum.used-before-definition"@
        } by {
            if i < a.len() {
                assert((a + b)[i] == a[i]);
            } else {
                assert((a + b)[i] == b[i - a.len()]);
            }
        }
    }
}

proof fn lemma_edge_diagnostics_parent(index: SemanticIndex, n: int)
    requires
        n <= index.inheritance@.len(),
    ensures
        crate::diagnostics::edge_diagnostics(index, n).filter(with_code("atml.inheritance.unknown-parent"@))
            == unknown_parent_diagnostics(index, n),
        crate::diagnostics::edge_diagnostics(index, n).filter(with_code("atml.inheritance.invalid-parent-type"@))
            == invalid_parent_diagnostics(index, n),
    decreases n,
{
    let p1 = with_code("atml.inheritance.unknown-parent"@);
    let p2 = with_code("atml.inheritance.invalid-parent-type"@);
    lemma_empty_filter(p1);
    lemma_empty_filter(p2);
    if n > 0 {
        lemma_edge_diagnostics_parent(index, n - 1);
        let e = index.inheritance@[n - 1];
        let here = crate::diagnostics::edge_diagnostic(index, e);
        Seq::filter_distributes_over_add(crate::diagnostics::edge_diagnostics(index, n - 1), here, p1);
        Seq::filter_distributes_over_add(crate::diagnostics::edge_diagnostics(index, n - 1), here, p2);
        lemma_parent_codes_differ();
        if here.len() == 1 {
            lemma_filter_one(here[0], p1);
            lemma_filter_one(here[0], p2);
            assert(here =~= seq![here[0]]);
        } else {
            assert(here =~= Seq::<DiagnosticView>::empty());
        }
    }
}

/// The inheritance diagnostics of an index: exactly one unknown-parent
/// diagnostic per edge whose parent names no definition, and one
/// invalid-parent-type diagnostic per edge whose parent is not a standard
/// table, in the edges' order, at the edge's range.
pub proof fn lemma_parent_diagnostics(index: SemanticIndex)
    ensures
        all_diagnostics(index).filter(with_code("atml.inheritance.unknown-parent"@)) == unknown_parent_diagnostics(
            index,
            index.inheritance@.len() as int,
        ),
        all_diagnostics(index).filter(with_code("atml.inheritance.invalid-parent-type"@)) == invalid_parent_diagnostics(
            index,
            index.inheritance@.len() as int,
        ),
{
    let refs = crate::diagnostics::reference_diagnostics(index, index.references@.len() as int);
    let edges = crate::diagnostics::edge_diagnostics(index, index.inheritance@.len() as int);
    let cycles = crate::diagnostics::cycle_diagnostics(index, 0, 0, Set::empty());
    lemma_edge_diagnostics_parent(index, index.inheritance@.len() as int);
    lemma_reference_diagnostic_codes(index, index.references@.len() as int);
    lemma_cycle_diagnostic_codes(index, 0, 0, Set::empty());
    lemma_parent_codes_differ();
    let n = index.inheritance@.len() as int;
    lemma_none_with_code(refs, "atml.inheritance.unknown-parent"@);
    lemma_none_with_code(cycles, "atml.inheritance.unknown-parent"@);
    lemma_none_with_code(refs, "atml.inheritance.invalid-parent-type"@);
    lemma_none_with_code(cycles, "atml.inheritance.invalid-parent-type"@);
    let p1 = with_code("atml.inheritance.unknown-parent"@);
    let p2 = with_code("atml.inheritance.invalid-parent-type"@);
    Seq::filter_distributes_over_add(refs, edges, p1);
    Seq::filter_distributes_over_add(refs + edges, cycles, p1);
    Seq::filter_distributes_over_add(refs, edges, p2);
    Seq::filter_distributes_over_add(refs + edges, cycles, p2);
    assert(Seq::<DiagnosticView>::empty() + unknown_parent_diagnostics(index, n) + Seq::<DiagnosticView>::empty()
        =~= unknown_parent_diagnostics(index, n));
    assert(Seq::<DiagnosticView>::empty() + invalid_parent_diagnostics(index, n) + Seq::<DiagnosticView>::empty()
        =~= invalid_parent_diagnostics(index, n));
}

/// The enum diagnostics with code `code` of the first `n` references: for an
/// enum member reference that names no member, `atml.enum.unknown-member`
/// when an enum of its enum path exists and `atml.enum.unknown-definition`
/// when none does; for one that names a member, `atml.enum.used-before-definition`
/// when the first enum of its path starts after the reference.
pub open spec fn enum_diagnostics(index: SemanticIndex, code: Seq<char>, n: int) -> Seq<DiagnosticView>
    decreases n,
{
    if n <= 0 {
        Seq::empty()
    } else {
        let r = index.references@[n - 1];
        let ep = crate::diagnostics::enum_part(r);
        let here: Seq<DiagnosticView> = if r.kind != crate::semantic::ReferenceKind::EnumMember {
            Seq::empty()
        } else if r.target is None {
            if crate::diagnostics::enum_exists(index, crate::paths::pv(ep)) {
                if code == "atml.enum.unknown-member"@ {
                    seq![
                        error(
                            "atml.enum.unknown-member",
                            "enum '"@ + crate::diagnostics::dotted(ep) + "' has no member '"@ + r.target_path@.last()@ + "'"@,
                            r.range,
                        ),
                    ]
                } else {
                    Seq::empty()
                }
            } else if code == "atml.enum.unknown-definition"@ {
                seq![error("atml.enum.unknown-definition", "unknown enum '"@ + crate::diagnostics::dotted(ep) + "'"@, r.range)]
            } else {
                Seq::empty()
            }
        } else if code == "atml.enum.used-before-definition"@ && crate::semantic::spec_definition(index, r.target.unwrap())
            is Some && (crate::diagnostics::first_enum_from(index, crate::paths::pv(ep), 0) matches Some(k)
            && index.definitions@[k].range.start > r.range.start) {
            seq![
                error(
                    "atml.enum.used-before-definition",
                    "enum '"@ + crate::diagnostics::dotted(ep) + "' is used before its definition"@,
                    r.range,
                ),
            ]
        } else {
            Seq::empty()
        };
        enum_diagnostics(index, code, n - 1) + here
    }
}

/// One of the three enum codes.
pub open spec fn enum_code(c: Seq<char>) -> bool {
    c == "atml.enum.unknown-member"@ || c == "atml.enum.unknown-definition"@ || c == "atml.enum.used-before-definition"@
}

proof fn lemma_enum_codes_differ()
    ensures
        "atml.enum.unknown-member"@ != "atml.enum.unknown-definition"@,
        "atml.enum.unknown-member"@ != "atml.enum.used-before-definition"@,
        "atml.enum.unknown-definition"@ != "atml.enum.used-before-definition"@,
        "atml.reference.unknown-target"@ != "atml.enum.unknown-member"@,
        "atml.reference.unknown-target"@ != "atml.enum.unknown-definition"@,
        "atml.reference.unknown-target"@ != "atml.enum.used-before-definition"@,
        "atml.inheritance.unknown-parent"@ != "atml.enum.unknown-member"@,
        "atml.inheritance.unknown-parent"@ != "atml.enum.unknown-definition"@,
        "atml.inheritance.unknown-parent"@ != "atml.enum.used-before-definition"@,
        "atml.inheritance.invalid-parent-type"@ != "atml.enum.unknown-member"@,
        "atml.inheritance.invalid-parent-type"@ != "atml.enum.unknown-definition"@,
        "atml.inheritance.invalid-parent-type"@ != "atml.enum.used-before-definition"@,
        "atml.reference.cycle"@ != "atml.enum.unknown-member"@,
        "atml.reference.cycle"@ != "atml.enum.unknown-definition"@,
        "atml.reference.cycle"@ != "atml.enum.used-before-definition"@,
        "atml.inheritance.cycle"@ != "atml.enum.unknown-member"@,
        "atml.inheritance.cycle"@ != "atml.enum.unknown-definition"@,
        "atml.inheritance.cycle"@ != "atml.enum.used-before-definition"@,
{
    lemma_codes_differ();
    lemma_parent_codes_differ();
    reveal_strlit("atml.enum.unknown-member");
    reveal_strlit("atml.enum.unknown-definition");
    reveal_strlit("atml.enum.used-before-definition");
    reveal_strlit("atml.reference.cycle");
    reveal_strlit("atml.inheritance.cycle");
    assert("atml.enum.unknown-member"@.len() != "atml.enum.unknown-definition"@.len());
    assert("atml.enum.unknown-member"@.len() != "atml.enum.used-before-definition"@.len());
    assert("atml.enum.unknown-definition"@.len() != "atml.enum.used-before-definition"@.len());
    assert("atml.reference.cycle"@.len() != "atml.enum.unknown-member"@.len());
    assert("atml.reference.cycle"@.len() != "atml.enum.unknown-definition"@.len());
    assert("atml.reference.cycle"@.len() != "atml.enum.used-before-definition"@.len());
    assert("atml.inheritance.cycle"@.len() != "atml.enum.unknown-member"@.len());
    assert("atml.inheritance.cycle"@.len() != "atml.enum.unknown-definition"@.len());
    assert("atml.inheritance.cycle"@.len() != "atml.enum.used-before-definition"@.len());
}

proof fn lemma_reference_diagnostics_enum(index: SemanticIndex, code: Seq<char>, n: int)
    requires
        n <= index.references@.len(),
        enum_code(code),
    ensures
        crate::diagnostics::reference_diagnostics(index, n).filter(with_code(code)) == enum_diagnostics(index, code, n),
    decreases n,
{
    let p = with_code(code);
    lemma_empty_filter(p);
    if n > 0 {
        lemma_reference_diagnostics_enum(index, code, n - 1);
        let r = index.references@[n - 1];
        let here = crate::diagnostics::reference_diagnostic(index, r);
        Seq::filter_distributes_over_add(crate::diagnostics::reference_diagnostics(index, n - 1), here, p);
        lemma_enum_codes_differ();
        if here.len() == 1 {
            lemma_filter_one(here[0], p);
            assert(here =~= seq![here[0]]);
        } else {
            assert(here =~= Seq::<DiagnosticView>::empty());
        }
    }
}

/// The enum diagnostics of an index: for each code, exactly the ones
/// `enum_diagnostics` describes, in the references' order.
pub proof fn lemma_enum_diagnostics(index: SemanticIndex, code: Seq<char>)
    requires
        enum_code(code),
    ensures
        all_diagnostics(index).filter(with_code(code)) == enum_diagnostics(index, code, index.references@.len() as int),
{
    let refs = crate::diagnostics::reference_diagnostics(index, index.references@.len() as int);
    let edges = crate::diagnostics::edge_diagnostics(index, index.inheritance@.len() as int);
    let cycles = crate::diagnostics::cycle_diagnostics(index, 0, 0, Set::empty());
    lemma_reference_diagnostics_enum(index, code, index.references@.len() as int);
    lemma_edge_diagnostic_codes(index, index.inheritance@.len() as int);
    lemma_cycle_diagnostic_codes(index, 0, 0, Set::empty());
    lemma_enum_codes_differ();
    lemma_none_with_code(edges, code);
    lemma_none_with_code(cycles, code);
    let p = with_code(code);
    Seq::filter_distributes_over_add(refs, edges, p);
    Seq::filter_distributes_over_add(refs + edges, cycles, p);
    let m = enum_diagnostics(index, code, index.references@.len() as int);
    assert(m + Seq::<DiagnosticView>::empty() + Seq::<DiagnosticView>::empty() =~= m);
}

/// Where the cycle diagnostic for path `q` of cycle `c` goes, with its code.
pub open spec fn cycle_spot(index: SemanticIndex, c: int, q: int) -> Option<(Seq<char>, ByteRange)> {
    let cycle = index.cycles@[c];
    match crate::diagnostics::cycle_location(index, cycle.kind, crate::paths::pv(cycle.paths@[q]@)) {
        Some(range) => Some((crate::diagnostics::cycle_code(cycle.kind)@, range)),
        None => None,
    }
}

/// `(code, range)` of a diagnostic.
pub open spec fn spot_of(d: DiagnosticView) -> (Seq<char>, ByteRange) {
    (d.0, d.3)
}

proof fn lemma_cycle_diagnostics_spots(index: SemanticIndex, c: int, p: int, reported: Set<(Seq<char>, ByteRange)>)
    requires
        0 <= c,
        0 <= p,
    ensures
        ({
            let res = crate::diagnostics::cycle_diagnostics(index, c, p, reported);
            &&& forall|i: int| 0 <= i < res.len() ==> !reported.contains(spot_of(#[trigger] res[i]))
            &&& forall|i: int, j: int| 0 <= i < j < res.len() ==> spot_of(#[trigger] res[i]) != spot_of(#[trigger] res[j])
            &&& forall|c2: int, q: int|
                c <= c2 < index.cycles@.len() && (c2 > c || q >= p) && 0 <= q && q + 1 < index.cycles@[c2].paths@.len()
                    && #[trigger] cycle_spot(index, c2, q) is Some ==> reported.contains(cycle_spot(index, c2, q)->0)
                    || exists|i: int| 0 <= i < res.len() && spot_of(#[trigger] res[i]) == cycle_spot(index, c2, q)->0
        }),
    decreases index.cycles@.len() - c, index.cycles@[c].paths@.len() - p,
{
    let res = crate::diagnostics::cycle_diagnostics(index, c, p, reported);
    if c >= index.cycles@.len() {
    } else {
        let cycle = index.cycles@[c];
        if p + 1 >= cycle.paths@.len() {
            lemma_cycle_diagnostics_spots(index, c + 1, 0, reported);
            assert(res == crate::diagnostics::cycle_diagnostics(index, c + 1, 0, reported));
        } else {
            let code = crate::diagnostics::cycle_code(cycle.kind);
            let path = crate::paths::pv(cycle.paths@[p]@);
            match crate::diagnostics::cycle_location(index, cycle.kind, path) {
                Some(range) => if reported.contains((code@, range)) {
                    lemma_cycle_diagnostics_spots(index, c, p + 1, reported);
                    assert(res == crate::diagnostics::cycle_diagnostics(index, c, p + 1, reported));
                } else {
                    let r2 = reported.insert((code@, range));
                    lemma_cycle_diagnostics_spots(index, c, p + 1, r2);
                    let d = error(code, crate::diagnostics::cycle_message(cycle), range);
                    let rest = crate::diagnostics::cycle_diagnostics(index, c, p + 1, r2);
                    assert(res == seq![d] + rest);
                    assert forall|i: int| 0 <= i < res.len() implies !reported.contains(spot_of(#[trigger] res[i])) by {
                        if i > 0 {
                            assert(res[i] == rest[i - 1]);
                        }
                    }
                    assert forall|i: int, j: int| 0 <= i < j < res.len() implies spot_of(#[trigger] res[i]) != spot_of(
                        #[trigger] res[j],
                    ) by {
                        assert(res[j] == rest[j - 1]);
                        if i > 0 {
                            assert(res[i] == rest[i - 1]);
                        }
                    }
                    assert forall|c2: int, q: int|
                        c <= c2 < index.cycles@.len() && (c2 > c || q >= p) && 0 <= q && q + 1 < index.cycles@[c2].paths@.len()
                            && #[trigger] cycle_spot(index, c2, q) is Some implies reported.contains(cycle_spot(index, c2, q)->0)
                            || exists|i: int| 0 <= i < res.len() && spot_of(#[trigger] res[i]) == cycle_spot(index, c2, q)->0 by {
                        if c2 == c && q == p {
                            assert(spot_of(res[0]) == cycle_spot(index, c2, q)->0);
                        } else if !reported.contains(cycle_spot(index, c2, q)->0) {
                            if cycle_spot(index, c2, q)->0 == (code@, range) {
                                assert(spot_of(res[0]) == cycle_spot(index, c2, q)->0);
                            } else {
                                let i = choose|i: int| 0 <= i < rest.len() && spot_of(#[trigger] rest[i]) == cycle_spot(index, c2, q)->0;
                                assert(res[i + 1] == rest[i]);
                            }
                        }
                    }
                },
                None => {
                    lemma_cycle_diagnostics_spots(index, c, p + 1, reported);
                    assert(res == crate::diagnostics::cycle_diagnostics(index, c, p + 1, reported));
                },
            }
        }
    }
}

/// The cycle diagnostics of an index, which close its list of semantic
/// diagnostics: for each path of each cycle (but the closing repeat) that has
/// a location, there is one with the cycle's code at that location, and no
/// two of them share code and range.
pub proof fn lemma_cycle_diagnostics_law(index: SemanticIndex)
    ensures
        ({
            let res = crate::diagnostics::cycle_diagnostics(index, 0, 0, Set::empty());
            &&& forall|i: int, j: int| 0 <= i < j < res.len() ==> spot_of(#[trigger] res[i]) != spot_of(#[trigger] res[j])
            &&& forall|c: int, q: int|
                0 <= c < index.cycles@.len() && 0 <= q && q + 1 < index.cycles@[c].paths@.len()
                    && #[trigger] cycle_spot(index, c, q) is Some ==> exists|i: int|
                    0 <= i < res.len() && spot_of(#[trigger] res[i]) == cycle_spot(index, c, q)->0
        }),
{
    lemma_cycle_diagnostics_spots(index, 0, 0, Set::empty());
}

/// The unknown-target diagnostics of an index are exactly one per path
/// reference that names no definition, in the references' order, at the
/// reference's range, naming its target.
pub proof fn lemma_unknown_target_diagnostics(index: SemanticIndex)
    ensures
        all_diagnostics(index).filter(with_code("atml.reference.unknown-target"@)) == unknown_target_diagnostics(
            index,
            index.references@.len() as int,
        ),
{
    let p = with_code("atml.reference.unknown-target"@);
    let refs = crate::diagnostics::reference_diagnostics(index, index.references@.len() as int);
    let edges = crate::diagnostics::edge_diagnostics(index, index.inheritance@.len() as int);
    let cycles = crate::diagnostics::cycle_diagnostics(index, 0, 0, Set::empty());
    lemma_reference_diagnostics_unknown(index, index.references@.len() as int);
    lemma_edge_diagnostic_codes(index, index.inheritance@.len() as int);
    lemma_cycle_diagnostic_codes(index, 0, 0, Set::empty());
    lemma_codes_differ();
    lemma_none_with_code(edges, "atml.reference.unknown-target"@);
    lemma_none_with_code(cycles, "atml.reference.unknown-target"@);
    Seq::filter_distributes_over_add(refs, edges, p);
    Seq::filter_distributes_over_add(refs + edges, cycles, p);
    assert(unknown_target_diagnostics(index, index.references@.len() as int) + Seq::<DiagnosticView>::empty()
        + Seq::<DiagnosticView>::empty() =~= unknown_target_diagnostics(index, index.references@.len() as int));
}

/// Parse and index a complete ATML document snapshot.
///
/// Text that parses is indexed as it is. When parsing fails because a path
/// reference does not resolve (a missing key or a reference cycle), the
/// references written as values are masked and the masked document, if it
/// parses, is indexed against the original text, so that the semantic
/// diagnostics report the references. Otherwise the longest prefix of whole
/// lines that parses is analyzed, with a diagnostic for the failure.
pub fn analyze(source: &str) -> (a: Analysis)
    ensures
        analysis_of(source@, a),
{
    match parse_atml(source) {
        Ok(document) => analyze_document(source, &document),
        Err(error) => {
            if error.kind == ParseErrorKind::KeyNotFound || error.kind == ParseErrorKind::CyclicPathRef {
                match recover_reference_document(source) {
                    Some(document) => analyze_document(source, &document),
                    None => recover_valid_prefix(source, &error),
                }
            } else {
                recover_valid_prefix(source, &error)
            }
        },
    }
}

} // verus!
