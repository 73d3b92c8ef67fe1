use atml_language_core::positions::{byte_to_position, position_to_byte, Position};
use atml_language_core::session::{ContentChange, Documents};

#[test]
fn positions_use_utf16_columns() {
    let text = "a😀b\nnext";
    assert_eq!(byte_to_position(text, "a😀".len()), Position::new(0, 3));
}

#[test]
fn incremental_change_replaces_utf16_range() {
    let uri: String = "file:///test.atml".to_owned();
    let mut documents = Documents::default();
    documents.open(uri.clone(), 1, "name = \"😀\"\n".into());
    documents.change(
        &uri,
        2,
        vec![ContentChange {
            range: Some((Position::new(0, 8), Position::new(0, 10))),
            text: "ATML".into(),
        }],
    );

    assert_eq!(documents.get(&uri).unwrap().text, "name = \"ATML\"\n");
}

#[test]
fn incremental_changes_handle_ascii_umlauts_and_non_bmp_characters() {
    let uri: String = "file:///unicode.atml".to_owned();
    let mut documents = Documents::default();
    documents.open(uri.clone(), 1, "value = \"Aä😀Z\"\n".into());

    let cases = [
        (2, Position::new(0, 9), Position::new(0, 10), "B"),
        (3, Position::new(0, 10), Position::new(0, 11), "ö"),
        (4, Position::new(0, 11), Position::new(0, 13), "🎉"),
    ];
    for (version, start, end, replacement) in cases {
        documents.change(
            &uri,
            version,
            vec![ContentChange {
                range: Some((start, end)),
                text: replacement.into(),
            }],
        );
    }

    assert_eq!(documents.get(&uri).unwrap().text, "value = \"Bö🎉Z\"\n");
}

#[test]
fn stale_document_versions_are_ignored() {
    let uri: String = "file:///versioned.atml".to_owned();
    let mut documents = Documents::default();
    documents.open(uri.clone(), 5, "value = 5\n".into());

    let result = documents.change(
        &uri,
        4,
        vec![ContentChange {
            range: None,
            text: "value = 4\n".into(),
        }],
    );

    assert!(result.is_none());
    assert_eq!(documents.get(&uri).unwrap().text, "value = 5\n");
}

#[test]
fn analysis_is_cached_and_invalidated_by_a_new_version() {
    let uri: String = "file:///cached.atml".to_owned();
    let mut documents = Documents::default();
    documents.open(uri.clone(), 1, "value = 1\n".into());
    assert!(documents.get(&uri).unwrap().analysis.is_none());
    documents.get_mut(&uri).unwrap().analysis();
    assert!(documents.get(&uri).unwrap().analysis.is_some());

    documents.change(
        &uri,
        2,
        vec![ContentChange {
            range: None,
            text: "value = 2\n".into(),
        }],
    );
    assert!(documents.get(&uri).unwrap().analysis.is_none());
}

#[test]
fn position_to_byte_rejects_columns_inside_a_surrogate_pair_and_past_the_line() {
    let text = "a😀b\nnext";
    assert_eq!(position_to_byte(text, Position::new(0, 1)), Some(1));
    assert_eq!(position_to_byte(text, Position::new(0, 2)), None);
    assert_eq!(position_to_byte(text, Position::new(0, 3)), Some(5));
    assert_eq!(position_to_byte(text, Position::new(0, 4)), Some(6));
    assert_eq!(position_to_byte(text, Position::new(0, 5)), None);
    assert_eq!(position_to_byte(text, Position::new(1, 4)), Some(11));
    assert_eq!(position_to_byte(text, Position::new(2, 0)), None);
}

#[test]
fn byte_to_position_clamps_and_floors_offsets() {
    let text = "a😀b\nnext";
    assert_eq!(byte_to_position(text, 3), Position::new(0, 1));
    assert_eq!(byte_to_position(text, 7), Position::new(1, 0));
    assert_eq!(byte_to_position(text, 100), Position::new(1, 4));
}

#[test]
fn closed_documents_are_forgotten_and_reopening_replaces() {
    let first: String = "file:///a.atml".to_owned();
    let second: String = "file:///b.atml".to_owned();
    let mut documents = Documents::default();
    documents.open(first.clone(), 1, "a = 1\n".into());
    documents.open(second.clone(), 1, "b = 1\n".into());
    documents.open(first.clone(), 7, "a = 2\n".into());
    assert_eq!(documents.get(&first).unwrap().version, 7);
    assert_eq!(documents.get(&first).unwrap().text, "a = 2\n");
    documents.close(&first);
    assert!(documents.get(&first).is_none());
    assert_eq!(documents.get(&second).unwrap().text, "b = 1\n");
    assert!(documents
        .change(&first, 9, vec![ContentChange { range: None, text: String::new() }])
        .is_none());
}

#[test]
fn reversed_change_ranges_leave_the_text_unchanged() {
    let uri: String = "file:///reversed.atml".to_owned();
    let mut documents = Documents::default();
    documents.open(uri.clone(), 1, "value = 1\n".into());
    let changed = documents.change(
        &uri,
        2,
        vec![ContentChange {
            range: Some((Position::new(0, 5), Position::new(0, 2))),
            text: "x".into(),
        }],
    );
    let changed = changed.unwrap();
    assert_eq!(changed.version, 2);
    assert_eq!(changed.text, "value = 1\n");
}

fn floor(text: &str, offset: usize) -> usize {
    let mut offset = offset.min(text.len());
    while !text.is_char_boundary(offset) {
        offset -= 1;
    }
    offset
}

#[test]
fn byte_offsets_survive_a_round_trip_through_positions() {
    let text = "a😀b\nnäxt\r\n\n🎉";
    for offset in 0..=text.len() + 2 {
        let position = byte_to_position(text, offset);
        assert_eq!(position_to_byte(text, position), Some(floor(text, offset)));
    }
}

#[test]
fn positions_never_go_back_as_offsets_grow() {
    let text = "a😀b\nnäxt\r\n\n🎉";
    let mut previous = byte_to_position(text, 0);
    for offset in 1..=text.len() {
        let position = byte_to_position(text, offset);
        assert!((previous.line, previous.character) <= (position.line, position.character));
        previous = position;
    }
}
