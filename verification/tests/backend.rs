use lsp_translations::backend::{Backend, BackendError};
use lsp_translations::config::{select_translation_files, ExtensionConfig};
use lsp_translations::definition::Definition;
use lsp_translations::document::{Position, Range, TextDocumentContentChangeEvent};
use lsp_translations::indexer::{Capture, CaptureKind, QueryMatch};
use lsp_translations::syntax::{NodeKind, SyntaxNode, SyntaxTree};

fn node(
    kind: NodeKind,
    start: usize,
    end: usize,
    parent: Option<usize>,
    children: Vec<usize>,
    key_child: Option<usize>,
) -> SyntaxNode {
    SyntaxNode {
        kind,
        start,
        end,
        parent,
        children,
        key_child,
    }
}

/// The parse of `{"a": {"en": "Hello", "nl": "Hallo"}}`, as an arena.
fn nested_json_tree() -> (String, SyntaxTree) {
    let text = "{\"a\": {\"en\": \"Hello\", \"nl\": \"Hallo\"}}".to_string();
    let nodes = vec![
        node(NodeKind::Other, 0, 37, None, vec![1], None),
        node(NodeKind::Other, 0, 37, Some(0), vec![2], None),
        node(NodeKind::Pair, 1, 36, Some(1), vec![3, 5], Some(3)),
        node(NodeKind::Other, 1, 4, Some(2), vec![4], None),
        node(NodeKind::StringContent, 2, 3, Some(3), vec![], None),
        node(NodeKind::Other, 6, 36, Some(2), vec![6, 11], None),
        node(NodeKind::Pair, 7, 20, Some(5), vec![7, 9], Some(7)),
        node(NodeKind::Other, 7, 11, Some(6), vec![8], None),
        node(NodeKind::StringContent, 8, 10, Some(7), vec![], None),
        node(NodeKind::Other, 13, 20, Some(6), vec![10], None),
        node(NodeKind::StringContent, 14, 19, Some(9), vec![], None),
        node(NodeKind::Pair, 22, 35, Some(5), vec![12, 14], Some(12)),
        node(NodeKind::Other, 22, 26, Some(11), vec![13], None),
        node(NodeKind::StringContent, 23, 25, Some(12), vec![], None),
        node(NodeKind::Other, 28, 35, Some(11), vec![15], None),
        node(NodeKind::StringContent, 29, 34, Some(14), vec![], None),
    ];
    (text, SyntaxTree { nodes })
}

fn nested_json_matches() -> Vec<QueryMatch> {
    vec![
        QueryMatch {
            captures: vec![
                Capture {
                    kind: CaptureKind::TranslationKey,
                    node: 7,
                },
                Capture {
                    kind: CaptureKind::TranslationValue,
                    node: 9,
                },
                Capture {
                    kind: CaptureKind::TranslationGroup,
                    node: 5,
                },
            ],
        },
        QueryMatch {
            captures: vec![
                Capture {
                    kind: CaptureKind::TranslationKey,
                    node: 12,
                },
                Capture {
                    kind: CaptureKind::TranslationValue,
                    node: 14,
                },
                Capture {
                    kind: CaptureKind::TranslationGroup,
                    node: 5,
                },
            ],
        },
    ]
}

fn pos(line: u32, character: u32) -> Position {
    Position { line, character }
}

#[test]
fn document_lifecycle_open_edit_close() {
    let mut backend = Backend::new();
    backend.open_document(
        "file:///a.js".to_string(),
        "javascript".to_string(),
        1,
        "let x = 1;".to_string(),
    );
    assert_eq!(backend.documents.len(), 1);
    backend
        .apply_edit(
            &"file:///a.js".to_string(),
            vec![TextDocumentContentChangeEvent {
                range: Some(Range {
                    start: pos(0, 8),
                    end: pos(0, 9),
                }),
                range_length: None,
                text: "2".to_string(),
            }],
            2,
        )
        .unwrap();
    assert_eq!(backend.documents[0].text, "let x = 2;");
    assert_eq!(backend.documents[0].version, 2);
    backend.close_document(&"file:///a.js".to_string());
    assert_eq!(backend.documents.len(), 0);
}

#[test]
fn editing_unknown_document_is_reported() {
    let mut backend = Backend::new();
    let r = backend.apply_edit(&"file:///nope".to_string(), Vec::new(), 1);
    assert_eq!(r, Err(BackendError::DocumentNotFound));
    assert_eq!(
        backend.find_hover_key(&"file:///nope".to_string(), pos(0, 0)),
        Err(BackendError::DocumentNotFound)
    );
    assert_eq!(
        backend.find_completion_range(&"file:///nope".to_string(), pos(0, 0)),
        Err(BackendError::DocumentNotFound)
    );
}

#[test]
fn reindexed_file_feeds_completion_and_hover() {
    let mut backend = Backend::new();
    let (text, tree) = nested_json_tree();
    let matches = nested_json_matches();
    backend
        .read_translation(
            "/proj/translations.json".to_string(),
            &"translations.json".to_string(),
            &text,
            &tree,
            &matches,
        )
        .unwrap();
    assert_eq!(backend.list_completion_identifiers(), vec!["a.en", "a.nl"]);

    backend.open_document(
        "file:///src/app.js".to_string(),
        "javascript".to_string(),
        1,
        "translate('a.en')".to_string(),
    );
    let hover = backend
        .find_hover_key(&"file:///src/app.js".to_string(), pos(0, 13))
        .unwrap()
        .unwrap();
    assert_eq!(hover.0, "|translation|\n|-\n|Hello");
    assert_eq!(hover.1.start, pos(0, 11));
    assert_eq!(hover.1.end, pos(0, 15));
}

#[test]
fn hover_on_unknown_key_returns_nothing() {
    let mut backend = Backend::new();
    backend.open_document(
        "file:///src/app.js".to_string(),
        "javascript".to_string(),
        1,
        "translate('missing.key')".to_string(),
    );
    let hover = backend
        .find_hover_key(&"file:///src/app.js".to_string(), pos(0, 13))
        .unwrap();
    assert!(hover.is_none());
}

#[test]
fn completion_range_is_empty_right_after_quote() {
    let mut backend = Backend::new();
    backend.open_document(
        "file:///src/app.js".to_string(),
        "javascript".to_string(),
        1,
        "translate('".to_string(),
    );
    let range = backend
        .find_completion_range(&"file:///src/app.js".to_string(), pos(0, 11))
        .unwrap()
        .unwrap();
    assert_eq!(range.start, pos(0, 11));
    assert_eq!(range.end, pos(0, 11));
}

#[test]
fn invalid_file_clears_previous_definitions() {
    let mut backend = Backend::new();
    let (text, tree) = nested_json_tree();
    backend
        .read_translation(
            "/proj/t.json".to_string(),
            &"t.json".to_string(),
            &text,
            &tree,
            &nested_json_matches(),
        )
        .unwrap();
    assert_eq!(backend.list_completion_identifiers().len(), 2);

    // the same file, now with one well-formed entry and one error capture
    let mut bad = nested_json_matches();
    bad.truncate(1);
    bad.push(QueryMatch {
        captures: vec![Capture {
            kind: CaptureKind::TranslationError,
            node: 0,
        }],
    });
    let r = backend.read_translation(
        "/proj/t.json".to_string(),
        &"t.json".to_string(),
        &text,
        &tree,
        &bad,
    );
    assert!(r.is_err());
    assert_eq!(backend.list_completion_identifiers().len(), 0);
}

#[test]
fn reindexing_swaps_a_file_slice_wholesale() {
    let mut backend = Backend::new();
    let mk = |key: &str| Definition {
        key: key.to_string(),
        cleaned_key: None,
        file: None,
        extra_data: Vec::new(),
        value: "v".to_string(),
    };
    backend
        .definitions
        .replace_for_file("/p/a.json".to_string(), vec![mk("old.one"), mk("old.two")]);
    backend
        .definitions
        .replace_for_file("/p/b.json".to_string(), vec![mk("other")]);
    backend
        .definitions
        .replace_for_file("/p/a.json".to_string(), vec![mk("new.one")]);
    let idents = backend.list_completion_identifiers();
    assert_eq!(idents, vec!["new.one", "other"]);
}

#[test]
fn removed_file_drops_its_definitions() {
    let mut backend = Backend::new();
    let mk = |key: &str| Definition {
        key: key.to_string(),
        cleaned_key: None,
        file: None,
        extra_data: Vec::new(),
        value: "v".to_string(),
    };
    backend
        .definitions
        .replace_for_file("/p/a.json".to_string(), vec![mk("a")]);
    backend
        .definitions
        .replace_for_file("/p/b.json".to_string(), vec![mk("b")]);
    backend.definitions.remove_file(&"/p/a.json".to_string());
    assert_eq!(backend.list_completion_identifiers(), vec!["b"]);
}

#[test]
fn file_name_language_reaches_definitions() {
    let mut backend = Backend::new();
    let config = ExtensionConfig::from_parts(
        vec!["**/*.json".to_string()],
        None,
        Some("^(?P<language>[a-z]+)\\.json$".to_string()),
        None,
        None,
    )
    .ok()
    .unwrap();
    backend.set_config(config);
    let (text, tree) = nested_json_tree();
    backend
        .read_translation(
            "/proj/nl.json".to_string(),
            &"nl.json".to_string(),
            &text,
            &tree,
            &nested_json_matches(),
        )
        .unwrap();
    let detail = backend
        .definitions
        .get_definition_detail_by_key(&"a.nl".to_string())
        .unwrap();
    // the nl language tag resolves to the Dutch flag
    assert_eq!(detail, "flag|language|translation\n-|-|-\n🇳🇱|**nl**|Hallo");
}

#[test]
fn malformed_pattern_rejects_configuration() {
    let r = ExtensionConfig::from_parts(
        Vec::new(),
        None,
        None,
        Some("(".to_string()),
        None,
    );
    match r {
        Ok(_) => panic!("a malformed pattern must be rejected"),
        Err(e) => assert!(!e.message_text().is_empty()),
    }
}

#[test]
fn file_selection_excludes_and_deduplicates() {
    let wanted = vec![
        "/p/a.json".to_string(),
        "/p/b.json".to_string(),
        "/p/a.json".to_string(),
        "/p/c.json".to_string(),
    ];
    let unwanted = vec!["/p/b.json".to_string()];
    let picked = select_translation_files(&wanted, &unwanted);
    assert_eq!(picked, vec!["/p/a.json", "/p/c.json"]);
}

#[test]
fn wellformed_configuration_loads() {
    // success is owed whenever every present pattern compiles
    let r = ExtensionConfig::from_parts(
        vec!["**/*.yml".to_string()],
        Some(vec!["**/ignored/**".to_string()]),
        None,
        None,
        None,
    );
    assert!(r.is_ok());
    let r2 = ExtensionConfig::from_parts(
        Vec::new(),
        None,
        Some("^(?P<language>[a-z]+)\\.json$".to_string()),
        Some("(?P<language>[^.]+)$".to_string()),
        Some("^[^.]+\\.(.+)$".to_string()),
    );
    assert!(r2.is_ok());
}
