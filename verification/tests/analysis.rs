use atml_language_core::recover_valid_prefix;
use atml_language_core::document::{ParseError, ParseErrorKind};
use atml_language_core::analyze;

#[test]
fn valid_atml_has_symbols_and_no_diagnostics() {
    let result = analyze(
        "Strategy[] = [Active, Passive]\n\
         [defaults]\n\
         timeout = 500ms\n\
         [server : defaults]\n\
         mode = Strategy::Active\n",
    );

    assert!(result.diagnostics.is_empty());
    assert!(result
        .symbols
        .iter()
        .any(|symbol| symbol.name == "Strategy"));
    assert!(result.symbols.iter().any(|symbol| symbol.name == "server"));
}

#[test]
fn invalid_atml_has_stable_diagnostic_code() {
    let result = analyze("value = 12^\n");

    assert_eq!(result.diagnostics.len(), 1);
    assert_eq!(result.diagnostics[0].code, "atml.syntax.parse-error");
    assert!(result.diagnostics[0].range.start <= result.diagnostics[0].range.end);
}

#[test]
fn unicode_before_error_produces_a_character_boundary() {
    let source = "label = \"Größe\"\nbroken = [\n";
    let result = analyze(source);
    let range = result.diagnostics[0].range;

    assert!(source.is_char_boundary(range.start));
    assert!(source.is_char_boundary(range.end));
}

#[test]
fn tables_contain_keys_and_subtables() {
    let result = analyze(
        "root_key = 1\n\
         [server]\n\
         host = \"localhost\"\n\
         [server.tls]\n\
         enabled = true\n",
    );

    let server = result
        .symbols
        .iter()
        .find(|symbol| symbol.name == "server")
        .unwrap();
    assert!(server.children.iter().any(|symbol| symbol.name == "host"));
    let tls = server
        .children
        .iter()
        .find(|symbol| symbol.name == "tls")
        .unwrap();
    assert!(tls.children.iter().any(|symbol| symbol.name == "enabled"));
}

#[test]
fn a_failed_parse_keeps_the_lines_before_it_and_reports_the_failure() {
    let source = "a = 1\nb = \n";
    let error = ParseError {
        kind: ParseErrorKind::Other,
        message: "bad".to_owned(),
        location: Some((2, 5)),
    };
    let analysis = recover_valid_prefix(source, &error);
    assert_eq!(analysis.diagnostics.len(), 1);
    assert_eq!(analysis.diagnostics[0].code, "atml.syntax.parse-error");
    assert_eq!(analysis.diagnostics[0].message, "bad");
    assert_eq!(analysis.symbols.len(), 1);
    assert_eq!(analysis.symbols[0].name, "a");
    assert!(analysis.semantic.is_some());
}
