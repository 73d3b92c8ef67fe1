use atml_language_core::analyze;
use atml_language_core::editing::{semantic_tokens, SemanticToken, SemanticTokenKind};
use atml_language_core::protocol::{encode_tokens, lsp_semantic_tokens, EncodedToken};
use atml_language_core::ByteRange;

fn token(start: usize, end: usize, kind: SemanticTokenKind) -> SemanticToken {
    SemanticToken { range: ByteRange { start, end }, kind }
}

fn encoded(delta_line: u32, delta_start: u32, length: u32, token_type: u32) -> EncodedToken {
    EncodedToken { delta_line, delta_start, length, token_type, token_modifiers_bitset: 0 }
}

#[test]
fn tokens_are_relative_in_utf16_columns_and_multi_line_tokens_are_left_out() {
    let text = "ab\n😀cd\n";
    let tokens = vec![
        token(0, 2, SemanticTokenKind::Property),
        token(1, 7, SemanticTokenKind::Table),
        token(7, 9, SemanticTokenKind::Unit),
        token(8, 9, SemanticTokenKind::Number),
    ];
    assert_eq!(
        encode_tokens(text, &tokens),
        vec![encoded(0, 0, 2, 0), encoded(1, 2, 2, 6), encoded(0, 1, 1, 5)]
    );
}

#[test]
fn document_tokens_are_encoded_in_order() {
    let source = "Mode[] = [Active]\n[root]\nmode = Mode::Active\n";
    let index = analyze(source).semantic.unwrap();
    let tokens = semantic_tokens(source, &index);
    let encoded = lsp_semantic_tokens(source, &index);
    assert_eq!(encoded.len(), tokens.len());
    assert_eq!(encoded[0].delta_line, 0);
    assert_eq!(encoded[0].delta_start, 0);
    assert_eq!(encoded[0].length, 6);
    assert_eq!(encoded[0].token_type, 2);
    let lines: u32 = encoded.iter().map(|token| token.delta_line).sum();
    assert_eq!(lines, 2);
}
