use atml_language_core::recovery::recover_reference_document;

#[test]
fn recovery_preserves_offsets_and_ignores_strings_and_comments() {
    let source = "text = \"a.b\"\n# ignored = a.b\nactual = missing.value\narray = [\n  one.value,\n  two.value,\n]\n";
    let recovered = recover_reference_document(source).unwrap();
    let serialized = recovered.dom.serialize();
    assert_eq!(serialized.len(), source.len());
}
