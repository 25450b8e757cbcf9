use lsp_translations::document::{FullTextDocument, Position};
use lsp_translations::string_helper::{
    find_translation_key_by_position, get_editing_range, is_editing_position,
};

fn offset_of(text: &str, line: u32, col: u32) -> usize {
    let mut doc = FullTextDocument::new(
        "file:///test".to_string(),
        "javascript".to_string(),
        1,
        text.to_string(),
    );
    doc.offset_at(Position {
        line,
        character: col,
    })
}

#[test]
fn finds_simple_translation_key() {
    let text = r#"
        function test() {
            translate('some-key');
        }
        "#
    .to_string();
    let pos = offset_of(&text, 2, 24);
    assert_eq!(
        find_translation_key_by_position(&text, &pos)
            .unwrap()
            .as_str(),
        "some-key"
    );
}

#[test]
fn finds_translation_key_in_inline_function() {
    let text = r#"
        function test() {
            test(translate('some-key'));
        }
        "#
    .to_string();
    let pos = offset_of(&text, 2, 28);
    assert_eq!(
        find_translation_key_by_position(&text, &pos)
            .unwrap()
            .as_str(),
        "some-key"
    );
}

#[test]
fn finds_translation_key_on_correct_position() {
    let text = r#"
        function test() {
            translate('first-key');
            translate('second-key');
        }
        "#
    .to_string();
    let pos = offset_of(&text, 3, 28);
    assert_eq!(
        find_translation_key_by_position(&text, &pos)
            .unwrap()
            .as_str(),
        "second-key"
    );
}

#[test]
fn finds_nothing_when_out_of_range() {
    let text = r#"
        function test() {
            translate('some-key');
        }
        "#
    .to_string();
    let pos = offset_of(&text, 2, 10);
    assert!(find_translation_key_by_position(&text, &pos).is_none());
}

#[test]
fn finds_no_translation_key() {
    let text = r#"
        function test() {
            translate2('some-key');
        }
        "#
    .to_string();
    let pos = offset_of(&text, 2, 24);
    assert!(find_translation_key_by_position(&text, &pos).is_none());
}

#[test]
fn is_editing_position_works_in_middle() {
    let text = r#"
        function test() {
            translate('some-key');
        }
        "#
    .to_string();
    let pos = offset_of(&text, 2, 27);
    assert_eq!(is_editing_position(&text, &pos), true);
}

#[test]
fn is_editing_position_works_at_start() {
    let text = r#"
        function test() {
            translate('
                "#
    .to_string();
    let pos = offset_of(&text, 2, 23);
    assert_eq!(is_editing_position(&text, &pos), true);
}

#[test]
fn is_editing_position_works_for_empty_key() {
    let text = r#"
        function test() {
            translate('')
                "#
    .to_string();
    let pos = offset_of(&text, 2, 23);
    assert_eq!(is_editing_position(&text, &pos), true);
}

#[test]
fn is_editing_position_returns_false_for_other_functions() {
    let text = r#"
        function test() {
            some_func('')
                "#
    .to_string();
    let pos = offset_of(&text, 2, 23);
    assert_eq!(is_editing_position(&text, &pos), false);
}

#[test]
fn editing_range_is_empty_after_opening_quote() {
    // Typing has just reached the opening quote: the range to replace is
    // empty and sits exactly at the cursor.
    let text = "translate('".to_string();
    let pos = 11usize;
    let range = get_editing_range(&text, &pos).unwrap();
    assert_eq!(range.start, 11);
    assert_eq!(range.end, 11);
}

#[test]
fn hover_range_spans_quoted_content_exactly() {
    let text = "translate('main.header.title')".to_string();
    let pos = 15usize;
    let m = find_translation_key_by_position(&text, &pos).unwrap();
    assert_eq!(m.as_str(), "main.header.title");
    assert_eq!(m.start, 11);
    assert_eq!(m.end, 28);
    assert_eq!(&text[m.start..m.end], "main.header.title");
}

#[test]
fn editing_range_includes_both_boundaries() {
    let text = "translate('abc')".to_string();
    // at the start boundary, right after the opening quote
    let start = 11usize;
    assert!(is_editing_position(&text, &start));
    // at the end boundary, right before the closing quote
    let end = 14usize;
    assert!(is_editing_position(&text, &end));
}
