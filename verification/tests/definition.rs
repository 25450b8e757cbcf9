use lsp_translations::definition::{Definition, TranslationFile};
use lsp_translations::index::DefinitionIndex;

fn definition_with_language(value: &str) -> Definition {
    Definition {
        key: "en.test_key".to_string(),
        cleaned_key: Some("test_key".to_string()),
        file: None,
        extra_data: vec![("language".to_string(), "en".to_string())],
        value: value.to_string(),
    }
}

#[test]
fn converts_en_to_us_flag() {
    let definition = definition_with_language("some value");
    assert_eq!(definition.get_flag(), Some("🇺🇸".to_string()));
}

#[test]
fn printable_value_escapes_newlines() {
    let definition = definition_with_language("\nSome value with multiple\nnewlines");
    assert_eq!(
        definition.get_printable_value(),
        "\\nSome value with multiple\\nnewlines"
    );
}

#[test]
fn printable_value_escapes_vertical_line() {
    let definition = definition_with_language("Abc|defg");
    assert_eq!(definition.get_printable_value(), "Abc\\|defg");
}

#[test]
fn printable_value_doesnt_escape_arabic() {
    let definition = Definition {
        key: "test_key".to_string(),
        cleaned_key: None,
        file: None,
        extra_data: Vec::new(),
        value: "مهلا".to_string(),
    };
    assert_eq!(definition.get_printable_value(), "مهلا");
}

#[test]
fn identifier_prefers_cleaned_key() {
    let d = definition_with_language("v");
    assert_eq!(d.get_identifier(), "test_key");
    let bare = Definition {
        key: "a.b".to_string(),
        cleaned_key: None,
        file: None,
        extra_data: Vec::new(),
        value: "v".to_string(),
    };
    assert_eq!(bare.get_identifier(), "a.b");
}

#[test]
fn language_falls_back_to_file_language() {
    let d = Definition {
        key: "greeting".to_string(),
        cleaned_key: None,
        file: Some(TranslationFile {
            path: "/tmp/nl.json".to_string(),
            language: Some("nl".to_string()),
        }),
        extra_data: Vec::new(),
        value: "hallo".to_string(),
    };
    assert_eq!(d.get_language().map(|l| l.as_str()), Some("nl"));
}

#[test]
fn detail_renders_language_table() {
    let mut index = DefinitionIndex::new();
    index.replace_for_file(
        "/tmp/a.json".to_string(),
        vec![definition_with_language("some value")],
    );
    let detail = index
        .get_definition_detail_by_key(&"test_key".to_string())
        .unwrap();
    assert_eq!(detail, "flag|language|translation\n-|-|-\n🇺🇸|**en**|some value");
}

#[test]
fn detail_renders_plain_table_without_metadata() {
    let mut index = DefinitionIndex::new();
    index.replace_for_file(
        "/tmp/a.json".to_string(),
        vec![Definition {
            key: "plain".to_string(),
            cleaned_key: None,
            file: None,
            extra_data: Vec::new(),
            value: "va".to_string(),
        }],
    );
    let detail = index
        .get_definition_detail_by_key(&"plain".to_string())
        .unwrap();
    assert_eq!(detail, "|translation|\n|-\n|va");
}

#[test]
fn detail_of_unknown_key_is_none() {
    let index = DefinitionIndex::new();
    assert!(index
        .get_definition_detail_by_key(&"missing".to_string())
        .is_none());
}

#[test]
fn identifiers_are_distinct_and_ordered() {
    let mk = |key: &str| Definition {
        key: key.to_string(),
        cleaned_key: None,
        file: None,
        extra_data: Vec::new(),
        value: "v".to_string(),
    };
    let mut index = DefinitionIndex::new();
    index.replace_for_file(
        "/tmp/a.json".to_string(),
        vec![mk("one"), mk("two"), mk("one")],
    );
    assert_eq!(index.list_identifiers(), vec!["one", "two"]);
}
