//! Semantic diagnostics of an index, and position-stable recovery of
//! documents whose path references do not resolve.
use vstd::prelude::*;
use vstd::string::StringSliceAdditionalSpecFns;


use crate::paths::{join, join_spec, path_eq, path_prefix, pv};
use crate::semantic::{
    spec_definition, CycleKind, DefinitionKind, ReferenceKind, SemanticCycle, SemanticIndex,
    Reference, InheritanceEdge,
};
use crate::sorting::{sort_diagnostics, sorted_diagnostics, with_key};
use crate::{ByteRange, Diagnostic, DiagnosticSeverity};

verus! {

/// A diagnostic as values: code, severity, message text and range.
pub type DiagnosticView = (Seq<char>, DiagnosticSeverity, Seq<char>, ByteRange);

pub open spec fn diagnostic_view(d: Diagnostic) -> DiagnosticView {
    (d.code@, d.severity, d.message@, d.range)
}

pub open spec fn error(code: &'static str, message: Seq<char>, range: ByteRange) -> DiagnosticView {
    (code@, DiagnosticSeverity::Error, message, range)
}

/// A key path written with dots.
pub open spec fn dotted(p: Seq<String>) -> Seq<char> {
    join_spec(pv(p), "."@)
}

/// The enum part of an enum reference's target (all but the member).
pub open spec fn enum_part(r: Reference) -> Seq<String> {
    r.target_path@.drop_last()
}

/// Some definition of kind `Enum` has path `p`.
pub open spec fn enum_exists(index: SemanticIndex, p: Seq<Seq<char>>) -> bool {
    exists|i: int|
        0 <= i < index.definitions@.len() && (#[trigger] index.definitions@[i]).kind == DefinitionKind::Enum
            && pv(index.definitions@[i].path@) == p
}

/// Position of the first enum definition with path `p`, from position `i` on.
pub open spec fn first_enum_from(index: SemanticIndex, p: Seq<Seq<char>>, i: int) -> Option<int>
    decreases index.definitions@.len() - i,
{
    if i < 0 || i >= index.definitions@.len() {
        None
    } else if index.definitions@[i].kind == DefinitionKind::Enum && pv(index.definitions@[i].path@) == p {
        Some(i)
    } else {
        first_enum_from(index, p, i + 1)
    }
}

/// The diagnostic a reference produces, if any.
pub open spec fn reference_diagnostic(index: SemanticIndex, r: Reference) -> Seq<DiagnosticView> {
    match r.kind {
        ReferenceKind::Path => if r.target is None {
            seq![error("atml.reference.unknown-target", "unknown ATML reference target '"@ + dotted(r.target_path@) + "'"@, r.range)]
        } else {
            Seq::empty()
        },
        ReferenceKind::EnumMember => {
            let ep = enum_part(r);
            if r.target is None {
                if enum_exists(index, pv(ep)) {
                    seq![error("atml.enum.unknown-member", "enum '"@ + dotted(ep) + "' has no member '"@ + r.target_path@.last()@ + "'"@, r.range)]
                } else {
                    seq![error("atml.enum.unknown-definition", "unknown enum '"@ + dotted(ep) + "'"@, r.range)]
                }
            } else if spec_definition(index, r.target.unwrap()) is Some && (first_enum_from(index, pv(ep), 0) matches Some(k)
                && index.definitions@[k].range.start > r.range.start) {
                seq![error("atml.enum.used-before-definition", "enum '"@ + dotted(ep) + "' is used before its definition"@, r.range)]
            } else {
                Seq::empty()
            }
        },
        ReferenceKind::Inheritance => Seq::empty(),
    }
}

/// The diagnostic an inheritance edge produces, if any.
pub open spec fn edge_diagnostic(index: SemanticIndex, e: InheritanceEdge) -> Seq<DiagnosticView> {
    let parent = match e.parent {
        Some(id) => spec_definition(index, id),
        None => None,
    };
    match parent {
        None => seq![error("atml.inheritance.unknown-parent", "unknown ATML parent table '"@ + dotted(e.parent_path@) + "'"@, e.range)],
        Some(d) => if d.kind != DefinitionKind::Table {
            seq![error("atml.inheritance.invalid-parent-type", "ATML parent '"@ + dotted(e.parent_path@) + "' must be a standard table"@, e.range)]
        } else {
            Seq::empty()
        },
    }
}

/// Diagnostics of the first `n` references, in order.
pub open spec fn reference_diagnostics(index: SemanticIndex, n: int) -> Seq<DiagnosticView>
    decreases n,
{
    if n <= 0 {
        Seq::empty()
    } else {
        reference_diagnostics(index, n - 1) + reference_diagnostic(index, index.references@[n - 1])
    }
}

/// Diagnostics of the first `n` inheritance edges, in order.
pub open spec fn edge_diagnostics(index: SemanticIndex, n: int) -> Seq<DiagnosticView>
    decreases n,
{
    if n <= 0 {
        Seq::empty()
    } else {
        edge_diagnostics(index, n - 1) + edge_diagnostic(index, index.inheritance@[n - 1])
    }
}

pub open spec fn cycle_code(kind: CycleKind) -> &'static str {
    match kind {
        CycleKind::PathReference => "atml.reference.cycle",
        CycleKind::Inheritance => "atml.inheritance.cycle",
    }
}

pub open spec fn cycle_message(c: SemanticCycle) -> Seq<char> {
    "cyclic "@ + match c.kind {
        CycleKind::PathReference => "ATML path reference"@,
        CycleKind::Inheritance => "ATML table inheritance"@,
    } + ": "@ + join_spec(c.paths@.map_values(|p: Vec<String>| dotted(p@)), " -> "@)
}

/// Range of the first path reference written in key `p`.
pub open spec fn first_reference_range(refs: Seq<Reference>, p: Seq<Seq<char>>, i: int) -> Option<ByteRange>
    decreases refs.len() - i,
{
    if i < 0 || i >= refs.len() {
        None
    } else if refs[i].kind == ReferenceKind::Path && pv(refs[i].source_path@) == p {
        Some(refs[i].range)
    } else {
        first_reference_range(refs, p, i + 1)
    }
}

/// Range of the first inheritance edge declared by table `p`.
pub open spec fn first_edge_range(edges: Seq<InheritanceEdge>, p: Seq<Seq<char>>, i: int) -> Option<ByteRange>
    decreases edges.len() - i,
{
    if i < 0 || i >= edges.len() {
        None
    } else if pv(edges[i].child_path@) == p {
        Some(edges[i].range)
    } else {
        first_edge_range(edges, p, i + 1)
    }
}

/// Where a cycle through `p` is reported.
pub open spec fn cycle_location(index: SemanticIndex, kind: CycleKind, p: Seq<Seq<char>>) -> Option<ByteRange> {
    match kind {
        CycleKind::PathReference => first_reference_range(index.references@, p, 0),
        CycleKind::Inheritance => first_edge_range(index.inheritance@, p, 0),
    }
}

/// Cycle diagnostics from cycle `c`, path `p` on, given the locations already
/// reported: one per cycle location (code and range), first occurrence wins.
pub open spec fn cycle_diagnostics(index: SemanticIndex, c: int, p: int, reported: Set<(Seq<char>, ByteRange)>) -> Seq<DiagnosticView>
    decreases index.cycles@.len() - c, index.cycles@[c].paths@.len() - p,
{
    if c < 0 || c >= index.cycles@.len() {
        Seq::empty()
    } else {
        let cycle = index.cycles@[c];
        if p < 0 || p + 1 >= cycle.paths@.len() {
            cycle_diagnostics(index, c + 1, 0, reported)
        } else {
            let code = cycle_code(cycle.kind);
            match cycle_location(index, cycle.kind, pv(cycle.paths@[p]@)) {
                Some(range) => if reported.contains((code@, range)) {
                    cycle_diagnostics(index, c, p + 1, reported)
                } else {
                    seq![error(code, cycle_message(cycle), range)] + cycle_diagnostics(
                        index,
                        c,
                        p + 1,
                        reported.insert((code@, range)),
                    )
                },
                None => cycle_diagnostics(index, c, p + 1, reported),
            }
        }
    }
}

/// All semantic diagnostics before sorting.
pub open spec fn all_diagnostics(index: SemanticIndex) -> Seq<DiagnosticView> {
    reference_diagnostics(index, index.references@.len() as int) + edge_diagnostics(
        index,
        index.inheritance@.len() as int,
    ) + cycle_diagnostics(index, 0, 0, Set::empty())
}

/// The views of a list of diagnostics.
pub open spec fn views(s: Seq<Diagnostic>) -> Seq<DiagnosticView> {
    s.map_values(|d: Diagnostic| diagnostic_view(d))
}

/// Holds of the diagnostic views whose start offset and code are `k`.
pub open spec fn view_with_key(k: (usize, Seq<char>)) -> spec_fn(DiagnosticView) -> bool {
    |v: DiagnosticView| (v.3.start, v.0) == k
}

/// Every enum reference names at least its member.
pub open spec fn enum_references_named(index: SemanticIndex) -> bool {
    forall|i: int|
        0 <= i < index.references@.len() && (#[trigger] index.references@[i]).kind == ReferenceKind::EnumMember
            ==> index.references@[i].target_path@.len() >= 1
}

} // verus!

verus! {

broadcast use vstd::seq_lib::group_to_multiset_ensures;

/// Views commute with filtering by key.
pub proof fn lemma_views_filter(s: Seq<Diagnostic>, k: (usize, Seq<char>))
    ensures
        views(s.filter(with_key(k))) == views(s).filter(view_with_key(k)),
    decreases s.len(),
{
    let f = |d: Diagnostic| diagnostic_view(d);
    reveal_with_fuel(Seq::filter, 1);
    if s.len() > 0 {
        let rest = s.drop_last();
        lemma_views_filter(rest, k);
        assert(s =~= rest.push(s.last()));
        assert(s.map_values(f) =~= rest.map_values(f).push(f(s.last())));
        rest.lemma_filter_push(s.last(), with_key(k));
        rest.map_values(f).lemma_filter_push(f(s.last()), view_with_key(k));
        assert(s.map_values(f).drop_last() =~= rest.map_values(f));
        if with_key(k)(s.last()) {
            assert(s.filter(with_key(k)).map_values(f) =~= rest.filter(with_key(k)).map_values(f).push(f(s.last())));
        }
    } else {
        assert(s.filter(with_key(k)).map_values(f) =~= s.map_values(f).filter(view_with_key(k)));
    }
}

fn diagnostic(code: &'static str, message: String, range: ByteRange) -> (d: Diagnostic)
    ensures
        diagnostic_view(d) == error(code, message@, range),
        d.severity == DiagnosticSeverity::Error,
{
    Diagnostic { code, severity: DiagnosticSeverity::Error, message, range }
}

/// `"<a>" + dotted(path) + "<b>"`.
fn framed_path(a: &str, path: &[String], b: &str) -> (m: String)
    ensures
        m@ == a@ + dotted(path@) + b@,
{
    let mut m = String::new();
    m.append(a);
    let joined = join(path, ".");
    m.append(joined.as_str());
    m.append(b);
    assert(m@ =~= a@ + dotted(path@) + b@);
    m
}

fn has_enum(index: &SemanticIndex, p: &[String]) -> (r: bool)
    ensures
        r == enum_exists(*index, pv(p@)),
{
    let mut i: usize = 0;
    while i < index.definitions.len()
        invariant
            i <= index.definitions@.len(),
            forall|k: int|
                0 <= k < i ==> !((#[trigger] index.definitions@[k]).kind == DefinitionKind::Enum && pv(
                    index.definitions@[k].path@,
                ) == pv(p@)),
        decreases index.definitions@.len() - i,
    {
        if index.definitions[i].kind == DefinitionKind::Enum && path_eq(index.definitions[i].path.as_slice(), p) {
            return true;
        }
        i = i + 1;
    }
    false
}

fn first_enum(index: &SemanticIndex, p: &[String]) -> (r: Option<usize>)
    ensures
        match r {
            Some(k) => first_enum_from(*index, pv(p@), 0) == Some(k as int) && k < index.definitions@.len(),
            None => first_enum_from(*index, pv(p@), 0) is None,
        },
{
    let mut i: usize = 0;
    while i < index.definitions.len()
        invariant
            i <= index.definitions@.len(),
            first_enum_from(*index, pv(p@), 0) == first_enum_from(*index, pv(p@), i as int),
        decreases index.definitions@.len() - i,
    {
        if index.definitions[i].kind == DefinitionKind::Enum && path_eq(index.definitions[i].path.as_slice(), p) {
            return Some(i);
        }
        i = i + 1;
    }
    None
}

fn reference_diagnostic_exec(index: &SemanticIndex, r: &Reference) -> (d: Option<Diagnostic>)
    requires
        r.kind == ReferenceKind::EnumMember ==> r.target_path@.len() >= 1,
    ensures
        match d {
            Some(d) => reference_diagnostic(*index, *r) == seq![diagnostic_view(d)] && d.severity == DiagnosticSeverity::Error,
            None => reference_diagnostic(*index, *r) == Seq::<DiagnosticView>::empty(),
        },
{
    match r.kind {
        ReferenceKind::Path => {
            if r.target.is_none() {
                let m = framed_path("unknown ATML reference target '", r.target_path.as_slice(), "'");
                Some(diagnostic("atml.reference.unknown-target", m, r.range))
            } else {
                None
            }
        },
        ReferenceKind::EnumMember => {
            let n = r.target_path.len();
            let enum_path = path_prefix(r.target_path.as_slice(), n - 1);
            assert(enum_path@ =~= enum_part(*r));
            if r.target.is_none() {
                if has_enum(index, enum_path.as_slice()) {
                    let mut m = framed_path("enum '", enum_path.as_slice(), "' has no member '");
                    m.append(r.target_path[n - 1].as_str());
                    m.append("'");
                    Some(diagnostic("atml.enum.unknown-member", m, r.range))
                } else {
                    let m = framed_path("unknown enum '", enum_path.as_slice(), "'");
                    Some(diagnostic("atml.enum.unknown-definition", m, r.range))
                }
            } else {
                let id = r.target.unwrap();
                if index.definition(id).is_some() {
                    match first_enum(index, enum_path.as_slice()) {
                        Some(k) => if index.definitions[k].range.start > r.range.start {
                            let m = framed_path("enum '", enum_path.as_slice(), "' is used before its definition");
                            Some(diagnostic("atml.enum.used-before-definition", m, r.range))
                        } else {
                            None
                        },
                        None => None,
                    }
                } else {
                    None
                }
            }
        },
        ReferenceKind::Inheritance => None,
    }
}

fn edge_diagnostic_exec(index: &SemanticIndex, e: &InheritanceEdge) -> (d: Option<Diagnostic>)
    ensures
        match d {
            Some(d) => edge_diagnostic(*index, *e) == seq![diagnostic_view(d)] && d.severity == DiagnosticSeverity::Error,
            None => edge_diagnostic(*index, *e) == Seq::<DiagnosticView>::empty(),
        },
{
    let parent = match e.parent {
        Some(id) => index.definition(id),
        None => None,
    };
    match parent {
        None => {
            let m = framed_path("unknown ATML parent table '", e.parent_path.as_slice(), "'");
            Some(diagnostic("atml.inheritance.unknown-parent", m, e.range))
        },
        Some(d) => if d.kind != DefinitionKind::Table {
            let m = framed_path("ATML parent '", e.parent_path.as_slice(), "' must be a standard table");
            Some(diagnostic("atml.inheritance.invalid-parent-type", m, e.range))
        } else {
            None
        },
    }
}

fn cycle_message_exec(c: &SemanticCycle) -> (m: String)
    ensures
        m@ == cycle_message(*c),
{
    let mut joined: Vec<String> = Vec::new();
    let mut i: usize = 0;
    while i < c.paths.len()
        invariant
            i <= c.paths@.len(),
            joined@.len() == i,
            forall|k: int| 0 <= k < i ==> (#[trigger] joined@[k])@ == dotted(c.paths@[k]@),
        decreases c.paths@.len() - i,
    {
        joined.push(join(c.paths[i].as_slice(), "."));
        i = i + 1;
    }
    let mut m = String::new();
    m.append("cyclic ");
    match c.kind {
        CycleKind::PathReference => m.append("ATML path reference"),
        CycleKind::Inheritance => m.append("ATML table inheritance"),
    }
    m.append(": ");
    let chain = join(joined.as_slice(), " -> ");
    assert(pv(joined@) =~= c.paths@.map_values(|p: Vec<String>| dotted(p@)));
    m.append(chain.as_str());
    m
}

fn cycle_location_exec(index: &SemanticIndex, kind: CycleKind, p: &[String]) -> (r: Option<ByteRange>)
    ensures
        r == cycle_location(*index, kind, pv(p@)),
{
    match kind {
        CycleKind::PathReference => {
            let mut i: usize = 0;
            while i < index.references.len()
                invariant
                    i <= index.references@.len(),
                    kind == CycleKind::PathReference,
                    first_reference_range(index.references@, pv(p@), 0) == first_reference_range(
                        index.references@,
                        pv(p@),
                        i as int,
                    ),
                decreases index.references@.len() - i,
            {
                if index.references[i].kind == ReferenceKind::Path && path_eq(index.references[i].source_path.as_slice(), p) {
                    assert(first_reference_range(index.references@, pv(p@), i as int) == Some(index.references@[i as int].range));
                    return Some(index.references[i].range);
                }
                i = i + 1;
            }
            None
        },
        CycleKind::Inheritance => {
            let mut i: usize = 0;
            while i < index.inheritance.len()
                invariant
                    i <= index.inheritance@.len(),
                    kind == CycleKind::Inheritance,
                    first_edge_range(index.inheritance@, pv(p@), 0) == first_edge_range(
                        index.inheritance@,
                        pv(p@),
                        i as int,
                    ),
                decreases index.inheritance@.len() - i,
            {
                if path_eq(index.inheritance[i].child_path.as_slice(), p) {
                    assert(first_edge_range(index.inheritance@, pv(p@), i as int) == Some(index.inheritance@[i as int].range));
                    return Some(index.inheritance[i].range);
                }
                i = i + 1;
            }
            None
        },
    }
}

fn cycle_reported(reported: &Vec<(CycleKind, ByteRange)>, kind: CycleKind, range: ByteRange) -> (r: bool)
    ensures
        r == exists|k: int| 0 <= k < reported@.len() && #[trigger] reported@[k] == (kind, range),
{
    let mut i: usize = 0;
    while i < reported.len()
        invariant
            i <= reported@.len(),
            forall|k: int| 0 <= k < i ==> #[trigger] reported@[k] != (kind, range),
        decreases reported@.len() - i,
    {
        if reported[i].0 == kind && reported[i].1 == range {
            return true;
        }
        i = i + 1;
    }
    false
}

spec fn reported_set(reported: Seq<(CycleKind, ByteRange)>) -> Set<(Seq<char>, ByteRange)> {
    Set::new(|x: (Seq<char>, ByteRange)| exists|k: int| 0 <= k < reported.len() && x == (cycle_code(#[trigger] reported[k].0)@, reported[k].1))
}

proof fn lemma_cycle_codes_differ()
    ensures
        "atml.reference.cycle"@ != "atml.inheritance.cycle"@,
{
    reveal_strlit("atml.reference.cycle");
    reveal_strlit("atml.inheritance.cycle");
    assert("atml.reference.cycle"@[5] != "atml.inheritance.cycle"@[5]);
}

/// The semantic diagnostics of an index, sorted by start offset and code:
/// unknown reference targets, unknown enums and enum members, enums used
/// before their definition, unknown or non-table inheritance parents, and one
/// diagnostic per location of each path-reference or inheritance cycle.
pub fn semantic_diagnostics(index: &SemanticIndex) -> (r: Vec<Diagnostic>)
    requires
        enum_references_named(*index),
    ensures
        r@.map_values(|d: Diagnostic| diagnostic_view(d)).to_multiset() == all_diagnostics(*index).to_multiset(),
        sorted_diagnostics(r@),
        forall|k: (usize, Seq<char>)|
            #[trigger] views(r@).filter(view_with_key(k)) == all_diagnostics(*index).filter(view_with_key(k)),
        forall|i: int| 0 <= i < r@.len() ==> (#[trigger] r@[i]).severity == DiagnosticSeverity::Error,
{
    let mut diagnostics: Vec<Diagnostic> = Vec::new();
    let ghost f = |d: Diagnostic| diagnostic_view(d);
    let mut i: usize = 0;
    while i < index.references.len()
        invariant
            i <= index.references@.len(),
            enum_references_named(*index),
            f == (|d: Diagnostic| diagnostic_view(d)),
            diagnostics@.map_values(f) == reference_diagnostics(*index, i as int),
            forall|k: int| 0 <= k < diagnostics@.len() ==> (#[trigger] diagnostics@[k]).severity == DiagnosticSeverity::Error,
        decreases index.references@.len() - i,
    {
        let ghost before = diagnostics@;
        match reference_diagnostic_exec(index, &index.references[i]) {
            Some(d) => {
                diagnostics.push(d);
                assert(diagnostics@.map_values(f) =~= before.map_values(f) + reference_diagnostic(*index, index.references@[i as int]));
            },
            None => {
                assert(before.map_values(f) =~= before.map_values(f) + reference_diagnostic(*index, index.references@[i as int]));
            },
        }
        i = i + 1;
    }
    let ghost after_refs = diagnostics@.map_values(f);
    let mut e: usize = 0;
    while e < index.inheritance.len()
        invariant
            e <= index.inheritance@.len(),
            f == (|d: Diagnostic| diagnostic_view(d)),
            after_refs == reference_diagnostics(*index, index.references@.len() as int),
            diagnostics@.map_values(f) == after_refs + edge_diagnostics(*index, e as int),
            forall|k: int| 0 <= k < diagnostics@.len() ==> (#[trigger] diagnostics@[k]).severity == DiagnosticSeverity::Error,
        decreases index.inheritance@.len() - e,
    {
        let ghost before = diagnostics@;
        match edge_diagnostic_exec(index, &index.inheritance[e]) {
            Some(d) => {
                diagnostics.push(d);
                assert(diagnostics@.map_values(f) =~= before.map_values(f) + edge_diagnostic(*index, index.inheritance@[e as int]));
            },
            None => {
                assert(before.map_values(f) =~= before.map_values(f) + edge_diagnostic(*index, index.inheritance@[e as int]));
            },
        }
        e = e + 1;
    }
    let ghost prefix = diagnostics@.map_values(f);
    let mut reported: Vec<(CycleKind, ByteRange)> = Vec::new();
    let mut c: usize = 0;
    proof {
        assert(reported_set(reported@) =~= Set::<(Seq<char>, ByteRange)>::empty());
        lemma_cycle_codes_differ();
    }
    while c < index.cycles.len()
        invariant
            c <= index.cycles@.len(),
            f == (|d: Diagnostic| diagnostic_view(d)),
            "atml.reference.cycle"@ != "atml.inheritance.cycle"@,
            prefix + cycle_diagnostics(*index, 0, 0, Set::empty()) == diagnostics@.map_values(f)
                + cycle_diagnostics(*index, c as int, 0, reported_set(reported@)),
            forall|k: int| 0 <= k < diagnostics@.len() ==> (#[trigger] diagnostics@[k]).severity == DiagnosticSeverity::Error,
        decreases index.cycles@.len() - c,
    {
        let cycle = &index.cycles[c];
        let code: &'static str = match cycle.kind {
            CycleKind::PathReference => "atml.reference.cycle",
            CycleKind::Inheritance => "atml.inheritance.cycle",
        };
        assert(code == cycle_code(cycle.kind));
        let message = cycle_message_exec(cycle);
        let mut p: usize = 0;
        while p < cycle.paths.len() && p + 1 < cycle.paths.len()
            invariant
                c < index.cycles@.len(),
                *cycle == index.cycles@[c as int],
                code == cycle_code(cycle.kind),
                message@ == cycle_message(*cycle),
                f == (|d: Diagnostic| diagnostic_view(d)),
                "atml.reference.cycle"@ != "atml.inheritance.cycle"@,
                prefix + cycle_diagnostics(*index, 0, 0, Set::empty()) == diagnostics@.map_values(f)
                    + cycle_diagnostics(*index, c as int, p as int, reported_set(reported@)),
                forall|k: int| 0 <= k < diagnostics@.len() ==> (#[trigger] diagnostics@[k]).severity == DiagnosticSeverity::Error,
            decreases cycle.paths@.len() - p,
        {
            let ghost before = diagnostics@;
            let ghost rs = reported_set(reported@);
            match cycle_location_exec(index, cycle.kind, cycle.paths[p].as_slice()) {
                Some(range) => {
                    let seen = cycle_reported(&reported, cycle.kind, range);
                    proof {
                        if rs.contains((code@, range)) {
                            let k = choose|k: int| 0 <= k < reported@.len() && (code@, range) == (cycle_code(#[trigger] reported@[k].0)@, reported@[k].1);
                            assert(reported@[k].0 == cycle.kind);
                        }
                        if seen {
                            let k = choose|k: int| 0 <= k < reported@.len() && #[trigger] reported@[k] == (cycle.kind, range);
                            assert(cycle_code(reported@[k].0) == code);
                            assert(rs.contains((code@, range)));
                        }
                    }
                    if !seen {
                        diagnostics.push(diagnostic(code, message.clone(), range));
                        let ghost r0 = reported@;
                        reported.push((cycle.kind, range));
                        proof {
                            assert(reported_set(reported@) =~= rs.insert((code@, range))) by {
                                assert forall|x: (Seq<char>, ByteRange)| reported_set(reported@).contains(x) implies rs.insert((code@, range)).contains(x) by {
                                    let k = choose|k: int| 0 <= k < reported@.len() && x == (cycle_code(#[trigger] reported@[k].0)@, reported@[k].1);
                                    if k < r0.len() {
                                        assert(reported@[k] == r0[k]);
                                    }
                                }
                                assert forall|x: (Seq<char>, ByteRange)| rs.insert((code@, range)).contains(x) implies reported_set(reported@).contains(x) by {
                                    if x == (code@, range) {
                                        assert(reported@[r0.len() as int] == (cycle.kind, range));
                                        assert(cycle_code(reported@[r0.len() as int].0) == code);
                                    } else {
                                        let k = choose|k: int| 0 <= k < r0.len() && x == (cycle_code(#[trigger] r0[k].0)@, r0[k].1);
                                        assert(reported@[k] == r0[k]);
                                    }
                                }
                            }
                            assert(diagnostics@.map_values(f) =~= before.map_values(f).push(error(code, cycle_message(*cycle), range)));
                            assert(seq![error(code, cycle_message(*cycle), range)] + cycle_diagnostics(*index, c as int, p + 1, reported_set(reported@))
                                == cycle_diagnostics(*index, c as int, p as int, rs));
                            assert(before.map_values(f) + cycle_diagnostics(*index, c as int, p as int, rs) =~=
                                diagnostics@.map_values(f) + cycle_diagnostics(*index, c as int, p + 1, reported_set(reported@)));
                        }
                    }
                },
                None => {},
            }
            p = p + 1;
        }
        proof {
            assert(cycle_diagnostics(*index, c as int, p as int, reported_set(reported@)) == cycle_diagnostics(*index, c + 1, 0, reported_set(reported@)));
        }
        c = c + 1;
    }
    proof {
        assert(cycle_diagnostics(*index, c as int, 0, reported_set(reported@)) == Seq::<DiagnosticView>::empty());
        assert(diagnostics@.map_values(f) =~= all_diagnostics(*index));
    }
    let ghost unsorted = diagnostics@;
    let sorted = sort_diagnostics(diagnostics);
    proof {
        crate::sorting::lemma_map_multiset(sorted@, unsorted, f);
        assert forall|k: (usize, Seq<char>)|
            #[trigger] views(sorted@).filter(view_with_key(k)) == all_diagnostics(*index).filter(view_with_key(k)) by {
            lemma_views_filter(sorted@, k);
            lemma_views_filter(unsorted, k);
            assert(sorted@.filter(with_key(k)) == unsorted.filter(with_key(k)));
        }
        assert forall|i: int| 0 <= i < sorted@.len() implies (#[trigger] sorted@[i]).severity == DiagnosticSeverity::Error by {
            assert(sorted@.to_multiset().count(sorted@[i]) > 0);
            assert(unsorted.contains(sorted@[i]));
            let j = choose|j: int| 0 <= j < unsorted.len() && unsorted[j] == sorted@[i];
        }
    }
    sorted
}

} // verus!
