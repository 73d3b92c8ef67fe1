//! The semantic index: definitions, references, quantities, inheritance
//! edges and cycles of one ATML document.
use vstd::prelude::*;
use vstd::string::StringSliceAdditionalSpecFns;
use vstd::utf8::*;

use crate::document::{
    LeafKind, QuantityMagnitude, QuantitySeparator, SemanticValue, TableEntry,
};
use crate::paths::{path_eq, pv};
use crate::text::{
    ascii_digit, bytes_of, find_byte, is_ascii_digit, is_bare_name_range, lemma_ascii_boundaries,
    lemma_view_from_bytes, owned_substr, spec_is_bare_name,
};
use crate::ByteRange;

verus! {

broadcast use {vstd::utf8::encode_utf8_valid_utf8, vstd::utf8::is_char_boundary_start_end_of_seq};

#[derive(Debug, Clone, Copy, PartialEq, Eq, Hash, Structural)]
pub struct DefinitionId(pub usize);

#[derive(Debug, Clone, Copy, PartialEq, Eq, Structural)]
pub enum DefinitionKind {
    Key,
    Table,
    ArrayOfTables,
    Enum,
    EnumMember,
}

#[derive(Debug, Clone, Copy, PartialEq, Eq, Structural)]
pub enum ValueType {
    String,
    Integer,
    Float,
    Boolean,
    OffsetDateTime,
    LocalDateTime,
    LocalDate,
    LocalTime,
    Array,
    Table,
    Quantity,
    EnumReference,
    EnumDefinition,
    Unknown,
}

#[derive(Debug, Clone, PartialEq, Eq)]
pub struct Definition {
    pub id: DefinitionId,
    pub name: String,
    pub path: Vec<String>,
    pub kind: DefinitionKind,
    pub value_type: ValueType,
    pub range: ByteRange,
    pub selection_range: ByteRange,
}

#[derive(Debug, Clone, Copy, PartialEq, Eq, Structural)]
pub enum ReferenceKind {
    Path,
    EnumMember,
    Inheritance,
}

#[derive(Debug, Clone, PartialEq, Eq)]
pub struct Reference {
    pub kind: ReferenceKind,
    pub source_path: Vec<String>,
    pub target_path: Vec<String>,
    pub range: ByteRange,
    pub target: Option<DefinitionId>,
    pub resolved_target: Option<DefinitionId>,
}

#[derive(Debug, Clone, PartialEq, Eq)]
pub struct QuantityOccurrence {
    pub path: Vec<String>,
    pub range: ByteRange,
    pub magnitude: QuantityMagnitude,
    pub unit: String,
    pub separator: Option<QuantitySeparator>,
    pub super_unit: Option<String>,
}

#[derive(Debug, Clone, PartialEq, Eq)]
pub struct InheritanceEdge {
    pub child_path: Vec<String>,
    pub parent_path: Vec<String>,
    pub range: ByteRange,
    pub parent: Option<DefinitionId>,
}

#[derive(Debug, Clone, Copy, PartialEq, Eq, Structural)]
pub enum CycleKind {
    PathReference,
    Inheritance,
}

#[derive(Debug, Clone, PartialEq, Eq)]
pub struct SemanticCycle {
    pub kind: CycleKind,
    pub paths: Vec<Vec<String>>,
}

#[derive(Debug, Clone, PartialEq, Eq)]
pub struct SemanticIndex {
    pub definitions: Vec<Definition>,
    pub references: Vec<Reference>,
    pub quantities: Vec<QuantityOccurrence>,
    pub inheritance: Vec<InheritanceEdge>,
    pub cycles: Vec<SemanticCycle>,
}

impl Default for SemanticIndex {
    fn default() -> (r: Self)
        ensures
            r.definitions@.len() == 0,
            r.references@.len() == 0,
            r.quantities@.len() == 0,
            r.inheritance@.len() == 0,
            r.cycles@.len() == 0,
    {
        SemanticIndex {
            definitions: Vec::new(),
            references: Vec::new(),
            quantities: Vec::new(),
            inheritance: Vec::new(),
            cycles: Vec::new(),
        }
    }
}

/// The definition that `id` names, if any.
pub open spec fn spec_definition(index: SemanticIndex, id: DefinitionId) -> Option<Definition> {
    if id.0 < index.definitions@.len() {
        Some(index.definitions@[id.0 as int])
    } else {
        None
    }
}

/// Every definition's id is its position in `definitions`.
pub open spec fn ids_are_positions(defs: Seq<Definition>) -> bool {
    forall|i: int| 0 <= i < defs.len() ==> (#[trigger] defs[i]).id.0 == i
}

/// Position of the last definition whose path is `path` among the first `n`.
pub open spec fn last_with_path(defs: Seq<Definition>, path: Seq<Seq<char>>, n: int) -> Option<int>
    decreases n,
{
    if n <= 0 {
        None
    } else if pv(defs[n - 1].path@) == path {
        Some(n - 1)
    } else {
        last_with_path(defs, path, n - 1)
    }
}

/// The id under which a path is known: that of the last definition of it.
pub open spec fn id_for_path(defs: Seq<Definition>, path: Seq<Seq<char>>) -> Option<DefinitionId> {
    match last_with_path(defs, path, defs.len() as int) {
        Some(i) => Some(defs[i].id),
        None => None,
    }
}

pub proof fn lemma_last_with_path(defs: Seq<Definition>, path: Seq<Seq<char>>, n: int)
    requires
        0 <= n <= defs.len(),
    ensures
        match last_with_path(defs, path, n) {
            Some(i) => 0 <= i < n && pv(defs[i].path@) == path && forall|j: int|
                i < j < n ==> pv(#[trigger] defs[j].path@) != path,
            None => forall|j: int| 0 <= j < n ==> pv(#[trigger] defs[j].path@) != path,
        },
    decreases n,
{
    if n > 0 {
        lemma_last_with_path(defs, path, n - 1);
    }
}

impl SemanticIndex {
    /// The definition with this id.
    pub fn definition(&self, id: DefinitionId) -> (r: Option<&Definition>)
        ensures
            match r {
                Some(d) => spec_definition(*self, id) == Some(*d),
                None => spec_definition(*self, id) is None,
            },
    {
        if id.0 < self.definitions.len() {
            Some(&self.definitions[id.0])
        } else {
            None
        }
    }

    /// All definitions of exactly this path, in document order.
    pub fn definitions_at_path(&self, path: &[String]) -> (r: Vec<&Definition>)
        ensures
            r@.map_values(|d: &Definition| *d) == self.definitions@.filter(
                |d: Definition| pv(d.path@) == pv(path@),
            ),
    {
        let ghost pred = |d: Definition| pv(d.path@) == pv(path@);
        let mut r: Vec<&Definition> = Vec::new();
        let mut i: usize = 0;
        while i < self.definitions.len()
            invariant
                i <= self.definitions@.len(),
                pred == (|d: Definition| pv(d.path@) == pv(path@)),
                r@.map_values(|d: &Definition| *d) == self.definitions@.subrange(0, i as int).filter(pred),
            decreases self.definitions@.len() - i,
        {
            proof {
                reveal_with_fuel(Seq::<_>::filter, 1);
                assert(self.definitions@.subrange(0, i + 1).drop_last() =~= self.definitions@.subrange(0, i as int));
            }
            if path_eq(self.definitions[i].path.as_slice(), path) {
                r.push(&self.definitions[i]);
            }
            assert(r@.map_values(|d: &Definition| *d) =~= self.definitions@.subrange(0, i + 1).filter(pred));
            i = i + 1;
        }
        assert(self.definitions@.subrange(0, i as int) =~= self.definitions@);
        r
    }

    /// The definition a reference finally resolves to.
    pub fn resolved_reference(&self, reference: &Reference) -> (r: Option<&Definition>)
        ensures
            match reference.resolved_target {
                Some(id) => match r {
                    Some(d) => spec_definition(*self, id) == Some(*d),
                    None => spec_definition(*self, id) is None,
                },
                None => r is None,
            },
    {
        match reference.resolved_target {
            Some(id) => self.definition(id),
            None => None,
        }
    }
}

/// The type shown for a semantic value.
pub open spec fn spec_value_type(value: SemanticValue) -> ValueType {
    match value {
        SemanticValue::Table(_) => ValueType::Table,
        SemanticValue::Array(_) => ValueType::Array,
        SemanticValue::EnumDefinition(_) => ValueType::EnumDefinition,
        SemanticValue::Leaf(kind) => match kind {
            LeafKind::String => ValueType::String,
            LeafKind::Integer => ValueType::Integer,
            LeafKind::Float => ValueType::Float,
            LeafKind::Boolean => ValueType::Boolean,
            LeafKind::OffsetDateTime => ValueType::OffsetDateTime,
            LeafKind::LocalDateTime => ValueType::LocalDateTime,
            LeafKind::LocalDate => ValueType::LocalDate,
            LeafKind::LocalTime => ValueType::LocalTime,
            LeafKind::Quantity => ValueType::Quantity,
            LeafKind::Enum => ValueType::EnumReference,
            LeafKind::PathRef => ValueType::Unknown,
            LeafKind::Other => ValueType::Unknown,
        },
    }
}

pub fn value_type(value: &SemanticValue) -> (r: ValueType)
    ensures
        r == spec_value_type(*value),
{
    match value {
        SemanticValue::Table(_) => ValueType::Table,
        SemanticValue::Array(_) => ValueType::Array,
        SemanticValue::EnumDefinition(_) => ValueType::EnumDefinition,
        SemanticValue::Leaf(kind) => match kind {
            LeafKind::String => ValueType::String,
            LeafKind::Integer => ValueType::Integer,
            LeafKind::Float => ValueType::Float,
            LeafKind::Boolean => ValueType::Boolean,
            LeafKind::OffsetDateTime => ValueType::OffsetDateTime,
            LeafKind::LocalDateTime => ValueType::LocalDateTime,
            LeafKind::LocalDate => ValueType::LocalDate,
            LeafKind::LocalTime => ValueType::LocalTime,
            LeafKind::Quantity => ValueType::Quantity,
            LeafKind::Enum => ValueType::EnumReference,
            LeafKind::PathRef => ValueType::Unknown,
            LeafKind::Other => ValueType::Unknown,
        },
    }
}

/// Decimal value of a run of ASCII digits.
pub open spec fn decimal_value(b: Seq<u8>) -> nat
    decreases b.len(),
{
    if b.len() == 0 {
        0
    } else {
        decimal_value(b.drop_last()) * 10 + (b.last() - 48) as nat
    }
}

/// The digits part of a `usize` literal: the text after an optional `+`.
pub open spec fn usize_digits(b: Seq<u8>) -> Seq<u8> {
    if b.len() > 0 && b[0] == 43 {
        b.drop_first()
    } else {
        b
    }
}

/// `usize::from_str`: an optional `+`, then one or more ASCII digits, in range.
pub open spec fn spec_parse_usize(b: Seq<u8>) -> Option<nat> {
    let d = usize_digits(b);
    if d.len() > 0 && (forall|i: int| 0 <= i < d.len() ==> is_ascii_digit(#[trigger] d[i]))
        && decimal_value(d) <= usize::MAX {
        Some(decimal_value(d))
    } else {
        None
    }
}

proof fn lemma_decimal_monotone(d: Seq<u8>, k: int)
    requires
        0 <= k <= d.len(),
        forall|i: int| 0 <= i < d.len() ==> is_ascii_digit(#[trigger] d[i]),
    ensures
        decimal_value(d.subrange(0, k)) <= decimal_value(d),
    decreases d.len() - k,
{
    if k < d.len() {
        lemma_decimal_monotone(d, k + 1);
        assert(d.subrange(0, k + 1).drop_last() =~= d.subrange(0, k));
        let x = decimal_value(d.subrange(0, k));
        assert(decimal_value(d.subrange(0, k + 1)) == x * 10 + (d[k] - 48) as nat);
        assert(x <= x * 10) by (nonlinear_arith);
    } else {
        assert(d.subrange(0, k) =~= d);
    }
}

/// Parses an array index the way `str::parse::<usize>` does.
pub fn parse_usize(s: &str) -> (r: Option<usize>)
    ensures
        match r {
            Some(n) => spec_parse_usize(s.spec_bytes()) == Some(n as nat),
            None => spec_parse_usize(s.spec_bytes()) is None,
        },
{
    let b = s.as_bytes();
    let ghost bs = b@;
    let start: usize = if b.len() > 0 && b[0] == 43 {
        1
    } else {
        0
    };
    let ghost d = usize_digits(bs);
    assert(d =~= bs.subrange(start as int, bs.len() as int));
    if start == b.len() {
        return None;
    }
    let mut v: usize = 0;
    let mut i = start;
    while i < b.len()
        invariant
            start <= i <= bs.len(),
            b@ == bs,
            bs == s.spec_bytes(),
            d == usize_digits(bs),
            d =~= bs.subrange(start as int, bs.len() as int),
            forall|k: int| start <= k < i ==> is_ascii_digit(#[trigger] bs[k]),
            v == decimal_value(bs.subrange(start as int, i as int)),
        decreases bs.len() - i,
    {
        let c = b[i];
        if !ascii_digit(c) {
            assert(!is_ascii_digit(d[i - start]));
            return None;
        }
        let digit = (c - 48) as usize;
        let ghost sub = bs.subrange(start as int, i + 1);
        assert(sub.drop_last() =~= bs.subrange(start as int, i as int));
        assert(sub.last() == c);
        assert(decimal_value(sub) == v * 10 + digit);
        if v > (usize::MAX - digit) / 10 {
            proof {
                assert(v * 10 + digit > usize::MAX) by (nonlinear_arith)
                    requires
                        v > (usize::MAX - digit) / 10,
                        digit <= 9,
                ;
                assert(forall|k: int| 0 <= k < sub.len() ==> is_ascii_digit(#[trigger] sub[k]));
                if forall|k: int| 0 <= k < d.len() ==> is_ascii_digit(#[trigger] d[k]) {
                    lemma_decimal_monotone(d, i + 1 - start);
                    assert(d.subrange(0, i + 1 - start) =~= sub);
                    assert(decimal_value(d) > usize::MAX);
                }
            }
            return None;
        }
        proof {
            assert(v * 10 + digit <= usize::MAX) by (nonlinear_arith)
                requires
                    v <= (usize::MAX - digit) / 10,
                    digit <= 9,
            ;
        }
        v = v * 10 + digit;
        i = i + 1;
    }
    assert(bs.subrange(start as int, bs.len() as int) =~= d);
    Some(v)
}

/// The first entry of a table with this key.
pub open spec fn table_get(entries: Seq<TableEntry>, key: Seq<char>) -> Option<SemanticValue>
    decreases entries.len(),
{
    if entries.len() == 0 {
        None
    } else if entries[0].key@ == key {
        Some(entries[0].value)
    } else {
        table_get(entries.drop_first(), key)
    }
}

/// The semantic value reached by following `path` from `value`: table keys by
/// name, array elements by decimal index.
pub open spec fn value_below(value: SemanticValue, path: Seq<String>) -> Option<SemanticValue>
    decreases path.len(),
{
    if path.len() == 0 {
        Some(value)
    } else {
        match value {
            SemanticValue::Table(entries) => match table_get(entries@, path[0]@) {
                Some(next) => value_below(next, path.drop_first()),
                None => None,
            },
            SemanticValue::Array(items) => match spec_parse_usize(encode_utf8(path[0]@)) {
                Some(n) => if n < items@.len() {
                    value_below(items@[n as int], path.drop_first())
                } else {
                    None
                },
                None => None,
            },
            _ => None,
        }
    }
}

/// The semantic value stored at a key path of the document root.
pub open spec fn spec_value_at_path(root: Seq<TableEntry>, path: Seq<String>) -> Option<SemanticValue> {
    if path.len() == 0 {
        None
    } else {
        match table_get(root, path[0]@) {
            Some(v) => value_below(v, path.drop_first()),
            None => None,
        }
    }
}

fn table_lookup<'a>(entries: &'a Vec<TableEntry>, key: &String) -> (r: Option<&'a SemanticValue>)
    ensures
        match r {
            Some(v) => table_get(entries@, key@) == Some(*v),
            None => table_get(entries@, key@) is None,
        },
{
    let mut i: usize = 0;
    assert(entries@.subrange(0, entries@.len() as int) =~= entries@);
    while i < entries.len()
        invariant
            i <= entries@.len(),
            table_get(entries@, key@) == table_get(entries@.subrange(i as int, entries@.len() as int), key@),
        decreases entries@.len() - i,
    {
        let ghost rest = entries@.subrange(i as int, entries@.len() as int);
        assert(rest[0] == entries@[i as int]);
        if entries[i].key == *key {
            return Some(&entries[i].value);
        }
        assert(rest.drop_first() =~= entries@.subrange(i + 1, entries@.len() as int));
        i = i + 1;
    }
    None
}

/// The semantic value at a key path of the document root.
pub fn value_at_path<'a>(root: &'a Vec<TableEntry>, path: &[String]) -> (r: Option<&'a SemanticValue>)
    ensures
        match r {
            Some(v) => spec_value_at_path(root@, path@) == Some(*v),
            None => spec_value_at_path(root@, path@) is None,
        },
{
    if path.len() == 0 {
        return None;
    }
    let mut value = match table_lookup(root, &path[0]) {
        Some(v) => v,
        None => return None,
    };
    let mut i: usize = 1;
    while i < path.len()
        invariant
            1 <= i <= path@.len(),
            spec_value_at_path(root@, path@) == value_below(*value, path@.subrange(i as int, path@.len() as int)),
        decreases path@.len() - i,
    {
        let ghost rest = path@.subrange(i as int, path@.len() as int);
        assert(rest[0] == path@[i as int]);
        assert(rest.drop_first() =~= path@.subrange(i + 1, path@.len() as int));
        let next = match value {
            SemanticValue::Table(entries) => table_lookup(entries, &path[i]),
            SemanticValue::Array(items) => {
                let seg = path[i].as_str();
                assert(seg.spec_bytes() == encode_utf8(path@[i as int]@));
                match parse_usize(seg) {
                    Some(n) => if n < items.len() {
                        Some(&items[n])
                    } else {
                        None
                    },
                    None => None,
                }
            },
            _ => None,
        };
        match next {
            Some(v) => value = v,
            None => return None,
        }
        i = i + 1;
    }
    assert(path@.subrange(i as int, path@.len() as int).len() == 0);
    Some(value)
}

/// Pieces of `b[from..]` between occurrences of byte `c`, like `str::split`.
pub open spec fn split_from(b: Seq<u8>, from: int, c: u8) -> Seq<Seq<u8>>
    decreases b.len() - from,
{
    if from < 0 || from > b.len() {
        Seq::empty()
    } else {
        match first_byte_from(b, from, c) {
            Some(i) => {
                proof {
                    lemma_first_byte_from(b, from, c);
                }
                seq![b.subrange(from, i)] + split_from(b, i + 1, c)
            },
            None => seq![b.subrange(from, b.len() as int)],
        }
    }
}

/// Position of the first byte `c` at or after `from`.
pub open spec fn first_byte_from(b: Seq<u8>, from: int, c: u8) -> Option<int>
    decreases b.len() - from,
{
    if from < 0 || from >= b.len() {
        None
    } else if b[from] == c {
        Some(from)
    } else {
        first_byte_from(b, from + 1, c)
    }
}

pub proof fn lemma_first_byte_from(b: Seq<u8>, from: int, c: u8)
    requires
        0 <= from,
    ensures
        match first_byte_from(b, from, c) {
            Some(i) => from <= i < b.len() && b[i] == c && forall|j: int| from <= j < i ==> b[j] != c,
            None => forall|j: int| from <= j < b.len() ==> b[j] != c,
        },
    decreases b.len() - from,
{
    if from < b.len() && b[from] != c {
        lemma_first_byte_from(b, from + 1, c);
    }
}

/// A reference target: two or more segments, each a bare name.
pub open spec fn spec_is_path_reference_target(p: Seq<String>) -> bool {
    p.len() >= 2 && forall|i: int| 0 <= i < p.len() ==> spec_is_bare_name(bytes_of(#[trigger] p[i]))
}

/// The segments of a Bare Path Reference: at least two bare names joined by `.`.
pub open spec fn spec_path_reference(b: Seq<u8>) -> Option<Seq<Seq<u8>>> {
    let pieces = split_from(b, 0, 46);
    if pieces.len() >= 2 && forall|i: int| 0 <= i < pieces.len() ==> spec_is_bare_name(#[trigger] pieces[i]) {
        Some(pieces)
    } else {
        None
    }
}

/// Splits a Bare Path Reference (`a.b.c`) into its segments; `None` when the
/// text is not one (fewer than two segments, or a segment that is not a bare name).
pub fn parse_path_reference(raw: &str) -> (r: Option<Vec<String>>)
    ensures
        match r {
            Some(v) => spec_path_reference(raw.spec_bytes()) matches Some(pieces) && v@.len()
                == pieces.len() && forall|i: int| 0 <= i < v@.len() ==> bytes_of(#[trigger] v@[i]) == pieces[i],
            None => spec_path_reference(raw.spec_bytes()) is None,
        },
{
    let b = raw.as_bytes();
    let ghost bs = b@;
    proof {
        lemma_view_from_bytes(raw);
    }
    let mut segments: Vec<String> = Vec::new();
    let ghost mut pieces: Seq<Seq<u8>> = Seq::empty();
    let mut all_bare = true;
    let mut start: usize = 0;
    loop
        invariant
            b@ == bs,
            bs == raw.spec_bytes(),
            valid_utf8(bs),
            start <= bs.len(),
            start == 0 || bs[start - 1] == 46,
            pieces + split_from(bs, start as int, 46) == split_from(bs, 0, 46),
            segments@.len() == pieces.len(),
            forall|k: int| 0 <= k < pieces.len() ==> bytes_of(#[trigger] segments@[k]) == pieces[k],
            all_bare == forall|k: int| 0 <= k < pieces.len() ==> spec_is_bare_name(#[trigger] pieces[k]),
        decreases bs.len() - start,
    {
        proof {
            lemma_first_byte_from(bs, start as int, 46);
            if start > 0 {
                lemma_ascii_boundaries(bs, start - 1);
            }
        }
        let found = find_byte(b, start, b.len(), 46);
        let end = match found {
            Some(i) => i,
            None => b.len(),
        };
        proof {
            if end < bs.len() {
                lemma_ascii_boundaries(bs, end as int);
            }
        }
        let bare = is_bare_name_range(b, start, end);
        let piece = owned_substr(raw, start, end);
        let ghost p = bs.subrange(start as int, end as int);
        let ghost old_pieces = pieces;
        segments.push(piece);
        proof {
            pieces = pieces.push(p);
            assert(split_from(bs, start as int, 46) == seq![p] + split_from(bs, end + 1, 46)
                || found is None);
            if found is Some {
                assert(old_pieces + split_from(bs, start as int, 46) =~= pieces + split_from(bs, end + 1, 46));
            }
        }
        all_bare = all_bare && bare;
        proof {
            assert(pieces[pieces.len() - 1] == p);
            assert(forall|k: int| 0 <= k < old_pieces.len() ==> #[trigger] pieces[k] == old_pieces[k]);
            if all_bare {
                assert forall|k: int| 0 <= k < pieces.len() implies spec_is_bare_name(#[trigger] pieces[k]) by {
                    if k < old_pieces.len() {
                        assert(spec_is_bare_name(old_pieces[k]));
                    }
                }
            } else if !bare {
                assert(!spec_is_bare_name(pieces[pieces.len() - 1]));
            } else {
                let k = choose|k: int| 0 <= k < old_pieces.len() && !spec_is_bare_name(#[trigger] old_pieces[k]);
                assert(!spec_is_bare_name(pieces[k]));
            }
        }
        match found {
            Some(i) => {
                start = i + 1;
            },
            None => {
                proof {
                    assert(split_from(bs, start as int, 46) == seq![p]);
                    assert(pieces =~= split_from(bs, 0, 46));
                }
                if segments.len() >= 2 && all_bare {
                    return Some(segments);
                } else {
                    return None;
                }
            },
        }
    }
}

} // verus!
