use lsp_translations::document::{
    compute_line_offsets, get_wellformed_range, FullTextDocument, Position, Range,
    TextDocumentContentChangeEvent,
};

fn doc(text: &str) -> FullTextDocument {
    FullTextDocument::new(
        "file:///doc".to_string(),
        "plaintext".to_string(),
        1,
        text.to_string(),
    )
}

fn incremental(sl: u32, sc: u32, el: u32, ec: u32, text: &str) -> TextDocumentContentChangeEvent {
    TextDocumentContentChangeEvent {
        range: Some(Range {
            start: Position {
                line: sl,
                character: sc,
            },
            end: Position {
                line: el,
                character: ec,
            },
        }),
        range_length: None,
        text: text.to_string(),
    }
}

#[test]
fn line_offsets_of_mixed_breaks() {
    let text = "ab\ncd\r\nef\rgh".to_string();
    // breaks: after "ab\n" -> 3; after "cd\r\n" -> 7; after "ef\r" -> 10
    let offsets = compute_line_offsets(&text, true, None);
    assert_eq!(offsets, vec![0, 3, 7, 10]);
}

#[test]
fn line_offsets_with_shift_and_no_leading_entry() {
    let text = "x\ny".to_string();
    let offsets = compute_line_offsets(&text, false, Some(100));
    assert_eq!(offsets, vec![102]);
}

#[test]
fn offset_of_position_and_back() {
    let mut d = doc("first\nsecond\r\nthird");
    for o in 0..20u32 {
        let pos = d.position_at(o);
        let back = d.offset_at(pos);
        assert_eq!(back, o.min(19) as usize);
    }
}

#[test]
fn position_at_clamps_past_end() {
    let mut d = doc("ab\ncd");
    let pos = d.position_at(100);
    assert_eq!(pos, Position { line: 1, character: 2 });
}

#[test]
fn offset_at_clamps_column_to_line_end() {
    let mut d = doc("ab\ncd\n");
    // column far beyond line 0 stops at the start of line 1
    assert_eq!(
        d.offset_at(Position { line: 0, character: 99 }),
        3
    );
    // a line past the end maps to the text end
    assert_eq!(
        d.offset_at(Position { line: 9, character: 0 }),
        6
    );
}

#[test]
fn line_count_counts_lines() {
    let mut d = doc("a\nb\nc");
    assert_eq!(d.line_count(), 3);
}

#[test]
fn incremental_edit_replaces_range() {
    let mut d = doc("hello world\nsecond line");
    d.update(vec![incremental(0, 6, 0, 11, "there")], 2);
    assert_eq!(d.text, "hello there\nsecond line");
    assert_eq!(d.version, 2);
}

#[test]
fn incremental_edit_across_lines_keeps_offsets_consistent() {
    let mut d = doc("one\ntwo\nthree\nfour");
    d.update(vec![incremental(1, 1, 2, 3, "X\nY")], 2);
    assert_eq!(d.text, "one\ntX\nYee\nfour");
    // the rebuilt line table still round-trips offsets
    let n = d.text.chars().count() as u32;
    for o in 0..=n {
        let pos = d.position_at(o);
        assert_eq!(d.offset_at(pos), o as usize);
    }
}

#[test]
fn malformed_range_is_swapped_before_use() {
    let mut d = doc("abcdef");
    // end before start: the ends are swapped, so this still replaces b..d
    d.update(vec![incremental(0, 4, 0, 1, "-")], 2);
    assert_eq!(d.text, "a-ef");

    let r = get_wellformed_range(Range {
        start: Position { line: 2, character: 0 },
        end: Position { line: 1, character: 5 },
    });
    assert_eq!(r.start, Position { line: 1, character: 5 });
    assert_eq!(r.end, Position { line: 2, character: 0 });
}

#[test]
fn sequence_of_edits_equals_full_replacement() {
    let mut incremental_doc = doc("state: old\nvalue: 1\n");
    incremental_doc.update(vec![incremental(0, 7, 0, 10, "new")], 2);
    incremental_doc.update(vec![incremental(1, 7, 1, 8, "42")], 3);

    let mut full_doc = doc("state: old\nvalue: 1\n");
    full_doc.update(
        vec![TextDocumentContentChangeEvent {
            range: None,
            range_length: None,
            text: incremental_doc.text.clone(),
        }],
        3,
    );

    assert_eq!(incremental_doc.text, full_doc.text);
    assert_eq!(incremental_doc.text, "state: new\nvalue: 42\n");
}

#[test]
fn full_replacement_resets_text() {
    let mut d = doc("old");
    d.update(
        vec![TextDocumentContentChangeEvent {
            range: None,
            range_length: None,
            text: "entirely new\ncontent".to_string(),
        }],
        7,
    );
    assert_eq!(d.text, "entirely new\ncontent");
    assert_eq!(d.version, 7);
    assert_eq!(d.line_count(), 2);
}

#[test]
fn edit_in_document_with_wide_characters() {
    let mut d = doc("emoji 🎉 line\nsecond");
    // replace the emoji (one character) by text
    d.update(vec![incremental(0, 6, 0, 7, "party")], 2);
    assert_eq!(d.text, "emoji party line\nsecond");
    let pos = d.position_at(3);
    assert_eq!(pos, Position { line: 0, character: 3 });
}

#[test]
fn byte_offsets_count_utf8_lengths() {
    let d = doc("aé🎉b");
    // characters: a(1 byte), é(2 bytes), 🎉(4 bytes), b(1 byte)
    assert_eq!(d.transform_offset_to_byte_offset(0, 1), (0, 1));
    assert_eq!(d.transform_offset_to_byte_offset(1, 2), (1, 3));
    assert_eq!(d.transform_offset_to_byte_offset(2, 3), (3, 7));
    assert_eq!(d.transform_offset_to_byte_offset(1, 4), (1, 8));
}

#[test]
fn is_incremental_and_is_full_classify_events() {
    let inc = incremental(0, 0, 0, 1, "x");
    assert!(FullTextDocument::is_incremental(&inc));
    assert!(!FullTextDocument::is_full(&inc));
    let full = TextDocumentContentChangeEvent {
        range: None,
        range_length: None,
        text: "x".to_string(),
    };
    assert!(FullTextDocument::is_full(&full));
    assert!(!FullTextDocument::is_incremental(&full));
}

#[test]
fn get_line_offsets_starts_at_zero() {
    let mut d = doc("ab\ncd");
    let offsets = d.get_line_offsets().clone();
    assert_eq!(offsets, vec![0, 3]);
}

#[test]
fn edit_that_splits_a_crlf_pair_keeps_the_table_right() {
    // Insert a bare carriage return, then a line feed right after it: the
    // two only form one break once both are present.
    let mut d = doc("ab");
    d.update(vec![incremental(0, 1, 0, 1, "\r")], 2);
    assert_eq!(d.text, "a\rb");
    assert_eq!(d.line_count(), 2);
    d.update(vec![incremental(1, 0, 1, 0, "\n")], 3);
    assert_eq!(d.text, "a\r\nb");
    assert_eq!(d.line_count(), 2);
    let n = d.text.chars().count() as u32;
    for o in 0..=n {
        let pos = d.position_at(o);
        assert_eq!(d.offset_at(pos), o as usize);
    }
}
