//! Semantic tokens as the editor protocol carries them: each relative to the
//! one before, in lines and UTF-16 columns.
use vstd::prelude::*;
use vstd::string::StringSliceAdditionalSpecFns;
use vstd::utf8::*;

use crate::editing::{
    deduplicated_tokens, range_lt, raw_tokens, semantic_tokens, tokens_sliceable, SemanticToken,
    SemanticTokenKind,
};
use crate::positions::{byte_to_position, lemma_position_monotone, spec_byte_to_position};
use crate::semantic::SemanticIndex;
use crate::text::lemma_view_from_bytes;

verus! {

/// A token in the protocol's relative form.
#[derive(Debug, Clone, Copy, PartialEq, Eq, Structural)]
pub struct EncodedToken {
    pub delta_line: u32,
    pub delta_start: u32,
    pub length: u32,
    pub token_type: u32,
    pub token_modifiers_bitset: u32,
}

/// The place of a token kind in the legend the server announces.
pub open spec fn token_type_index(k: SemanticTokenKind) -> u32 {
    match k {
        SemanticTokenKind::Property => 0,
        SemanticTokenKind::Table => 1,
        SemanticTokenKind::Enum => 2,
        SemanticTokenKind::EnumMember => 3,
        SemanticTokenKind::Reference => 4,
        SemanticTokenKind::Number => 5,
        SemanticTokenKind::Unit => 6,
    }
}

fn token_type_exec(k: SemanticTokenKind) -> (r: u32)
    ensures
        r == token_type_index(k),
{
    match k {
        SemanticTokenKind::Property => 0,
        SemanticTokenKind::Table => 1,
        SemanticTokenKind::Enum => 2,
        SemanticTokenKind::EnumMember => 3,
        SemanticTokenKind::Reference => 4,
        SemanticTokenKind::Number => 5,
        SemanticTokenKind::Unit => 6,
    }
}

/// The token starts and ends on one line.
pub open spec fn on_one_line(b: Seq<u8>, t: SemanticToken) -> bool {
    spec_byte_to_position(b, t.range.start as int).line == spec_byte_to_position(b, t.range.end as int).line
}

/// The tokens that the protocol can carry: those on one line.
pub open spec fn one_line_tokens(b: Seq<u8>, ts: Seq<SemanticToken>) -> Seq<SemanticToken> {
    ts.filter(|t: SemanticToken| on_one_line(b, t))
}

/// Token `i` of `kept`, relative to token `i - 1` (or to the document start).
pub open spec fn encoded_at(b: Seq<u8>, kept: Seq<SemanticToken>, i: int) -> EncodedToken {
    let start = spec_byte_to_position(b, kept[i].range.start as int);
    let end = spec_byte_to_position(b, kept[i].range.end as int);
    let previous = if i == 0 {
        crate::positions::Position { line: 0, character: 0 }
    } else {
        spec_byte_to_position(b, kept[i - 1].range.start as int)
    };
    let delta_line = (start.line - previous.line) as u32;
    EncodedToken {
        delta_line,
        delta_start: if delta_line == 0 {
            (start.character - previous.character) as u32
        } else {
            start.character
        },
        length: (end.character - start.character) as u32,
        token_type: token_type_index(kept[i].kind),
        token_modifiers_bitset: 0,
    }
}

/// Token `i` starts at or after the position where token `i - 1` starts, so
/// that its relative position is not negative.
pub open spec fn starts_in_order(b: Seq<u8>, kept: Seq<SemanticToken>, i: int) -> bool {
    let p = spec_byte_to_position(b, kept[i - 1].range.start as int);
    let s = spec_byte_to_position(b, kept[i].range.start as int);
    p.line <= s.line && (p.line == s.line ==> p.character <= s.character)
}

/// Tokens in increasing order, each non-empty.
pub open spec fn ordered_tokens(ts: Seq<SemanticToken>) -> bool {
    &&& forall|i: int, j: int| 0 <= i < j < ts.len() ==> range_lt((#[trigger] ts[i]).range, (#[trigger] ts[j]).range)
    &&& forall|i: int| 0 <= i < ts.len() ==> (#[trigger] ts[i]).range.start < ts[i].range.end
}

/// Encodes ordered tokens of a text for the protocol: those spanning lines
/// are left out, the others made relative to the one before.
pub fn encode_tokens(text: &str, tokens: &Vec<SemanticToken>) -> (r: Vec<EncodedToken>)
    requires
        ordered_tokens(tokens@),
        text.spec_bytes().len() <= u32::MAX,
    ensures
        r@.len() == one_line_tokens(text.spec_bytes(), tokens@).len(),
        forall|i: int| 0 <= i < r@.len() ==> #[trigger] r@[i] == encoded_at(
            text.spec_bytes(),
            one_line_tokens(text.spec_bytes(), tokens@),
            i,
        ),
        forall|i: int| 0 < i < r@.len() ==> #[trigger] starts_in_order(text.spec_bytes(), one_line_tokens(text.spec_bytes(), tokens@), i),
{
    let ghost b = text.spec_bytes();
    let ghost ts = tokens@;
    let ghost pred = |t: SemanticToken| on_one_line(b, t);
    proof {
        lemma_view_from_bytes(text);
    }
    let mut out: Vec<EncodedToken> = Vec::new();
    let mut previous_line: u32 = 0;
    let mut previous_start: u32 = 0;
    let mut last_start: usize = 0;
    let mut k: usize = 0;
    while k < tokens.len()
        invariant
            b == text.spec_bytes(),
            valid_utf8(b),
            b.len() <= u32::MAX,
            ts == tokens@,
            ordered_tokens(ts),
            pred == (|t: SemanticToken| on_one_line(b, t)),
            k <= ts.len(),
            out@.len() == ts.subrange(0, k as int).filter(pred).len(),
            forall|i: int| 0 <= i < out@.len() ==> #[trigger] out@[i] == encoded_at(b, ts.subrange(0, k as int).filter(pred), i),
            out@.len() == 0 ==> previous_line == 0 && previous_start == 0 && last_start == 0,
            out@.len() > 0 ==> {
                let kept = ts.subrange(0, k as int).filter(pred);
                &&& last_start == kept[kept.len() - 1].range.start
                &&& previous_line == spec_byte_to_position(b, last_start as int).line
                &&& previous_start == spec_byte_to_position(b, last_start as int).character
                &&& k > 0 && last_start <= ts[k - 1].range.start
            },
            forall|i: int| 0 < i < out@.len() ==> #[trigger] starts_in_order(b, ts.subrange(0, k as int).filter(pred), i),
        decreases ts.len() - k,
    {
        let token = tokens[k];
        let start = byte_to_position(text, token.range.start);
        let end = byte_to_position(text, token.range.end);
        let ghost before = ts.subrange(0, k as int).filter(pred);
        proof {
            reveal_with_fuel(Seq::<_>::filter, 1);
            assert(ts.subrange(0, k + 1).drop_last() =~= ts.subrange(0, k as int));
            assert(ts.subrange(0, k + 1).last() == token);
            lemma_position_monotone(b, token.range.start as int, token.range.end as int);
            if k > 0 {
                assert(range_lt(ts[k - 1].range, ts[k as int].range));
            }
            if out@.len() > 0 {
                lemma_position_monotone(b, last_start as int, token.range.start as int);
            }
        }
        if start.line == end.line {
            let delta_line = start.line - previous_line;
            let delta_start = if delta_line == 0 {
                start.character - previous_start
            } else {
                start.character
            };
            let encoded = EncodedToken {
                delta_line,
                delta_start,
                length: end.character - start.character,
                token_type: token_type_exec(token.kind),
                token_modifiers_bitset: 0,
            };
            out.push(encoded);
            proof {
                let now = ts.subrange(0, k + 1).filter(pred);
                assert(now =~= before.push(token));
                assert forall|i: int| 0 <= i < out@.len() implies #[trigger] out@[i] == encoded_at(b, now, i) by {
                    if i + 1 < out@.len() {
                        assert(now[i] == before[i]);
                        if i > 0 {
                            assert(now[i - 1] == before[i - 1]);
                        }
                    }
                }
                assert forall|i: int| 0 < i < out@.len() implies #[trigger] starts_in_order(b, now, i) by {
                    if i + 1 < out@.len() {
                        assert(starts_in_order(b, before, i));
                        assert(now[i] == before[i]);
                        assert(now[i - 1] == before[i - 1]);
                    }
                }
            }
            previous_line = start.line;
            previous_start = start.character;
            last_start = token.range.start;
        } else {
            proof {
                assert(ts.subrange(0, k + 1).filter(pred) =~= before);
            }
        }
        k = k + 1;
    }
    proof {
        assert(ts.subrange(0, k as int) =~= ts);
    }
    out
}

/// The semantic tokens of a text, encoded for the protocol.
pub fn lsp_semantic_tokens(text: &str, index: &SemanticIndex) -> (r: Vec<EncodedToken>)
    requires
        tokens_sliceable(text.spec_bytes(), *index),
        text.spec_bytes().len() <= u32::MAX,
    ensures
        exists|ts: Seq<SemanticToken>|
            deduplicated_tokens(
                ts,
                raw_tokens(text.spec_bytes(), *index),
                raw_tokens(text.spec_bytes(), *index).len() as int,
            ) && r@.len() == one_line_tokens(text.spec_bytes(), ts).len() && forall|i: int|
                0 <= i < r@.len() ==> #[trigger] r@[i] == encoded_at(
                    text.spec_bytes(),
                    one_line_tokens(text.spec_bytes(), ts),
                    i,
                ),
{
    let tokens = semantic_tokens(text, index);
    encode_tokens(text, &tokens)
}

} // verus!
