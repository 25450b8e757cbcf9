use lsp_translations::config::ExtensionConfig;
use lsp_translations::indexer::{
    get_language_by_extension, get_query_source_by_language, parse_translation_structure, Capture,
    CaptureKind, LanguageKind, QueryMatch,
};
use lsp_translations::syntax::{
    get_array_index_of_node, get_path_for_node, get_string_content_from_string, NodeKind,
    SyntaxNode, SyntaxTree,
};

fn node(
    kind: NodeKind,
    start: usize,
    end: usize,
    parent: Option<usize>,
    children: Vec<usize>,
    key_child: Option<usize>,
) -> SyntaxNode {
    SyntaxNode {
        kind,
        start,
        end,
        parent,
        children,
        key_child,
    }
}

/// The parse of `{"a": {"en": "Hello", "nl": "Hallo"}}`, as an arena.
fn nested_json_tree() -> (String, SyntaxTree) {
    let text = "{\"a\": {\"en\": \"Hello\", \"nl\": \"Hallo\"}}".to_string();
    let nodes = vec![
        node(NodeKind::Other, 0, 37, None, vec![1], None),
        node(NodeKind::Other, 0, 37, Some(0), vec![2], None),
        node(NodeKind::Pair, 1, 36, Some(1), vec![3, 5], Some(3)),
        node(NodeKind::Other, 1, 4, Some(2), vec![4], None),
        node(NodeKind::StringContent, 2, 3, Some(3), vec![], None),
        node(NodeKind::Other, 6, 36, Some(2), vec![6, 11], None),
        node(NodeKind::Pair, 7, 20, Some(5), vec![7, 9], Some(7)),
        node(NodeKind::Other, 7, 11, Some(6), vec![8], None),
        node(NodeKind::StringContent, 8, 10, Some(7), vec![], None),
        node(NodeKind::Other, 13, 20, Some(6), vec![10], None),
        node(NodeKind::StringContent, 14, 19, Some(9), vec![], None),
        node(NodeKind::Pair, 22, 35, Some(5), vec![12, 14], Some(12)),
        node(NodeKind::Other, 22, 26, Some(11), vec![13], None),
        node(NodeKind::StringContent, 23, 25, Some(12), vec![], None),
        node(NodeKind::Other, 28, 35, Some(11), vec![15], None),
        node(NodeKind::StringContent, 29, 34, Some(14), vec![], None),
    ];
    (text, SyntaxTree { nodes })
}

fn nested_json_matches() -> Vec<QueryMatch> {
    vec![
        QueryMatch {
            captures: vec![
                Capture {
                    kind: CaptureKind::TranslationKey,
                    node: 7,
                },
                Capture {
                    kind: CaptureKind::TranslationValue,
                    node: 9,
                },
                Capture {
                    kind: CaptureKind::TranslationGroup,
                    node: 5,
                },
            ],
        },
        QueryMatch {
            captures: vec![
                Capture {
                    kind: CaptureKind::TranslationKey,
                    node: 12,
                },
                Capture {
                    kind: CaptureKind::TranslationValue,
                    node: 14,
                },
                Capture {
                    kind: CaptureKind::TranslationGroup,
                    node: 5,
                },
            ],
        },
    ]
}

fn details_config() -> ExtensionConfig {
    ExtensionConfig::from_parts(
        vec!["**/*.json".to_string()],
        None,
        None,
        Some("(?P<language>[^.]+)$".to_string()),
        None,
    )
    .ok()
    .unwrap()
}

#[test]
fn nested_entries_get_dotted_paths_and_language_details() {
    let (text, tree) = nested_json_tree();
    let matches = nested_json_matches();
    let config = details_config();
    let defs = parse_translation_structure(&text, &config, &tree, &matches).unwrap();
    assert_eq!(defs.len(), 2);
    assert_eq!(defs[0].key, "a.en");
    assert_eq!(defs[0].value, "Hello");
    assert_eq!(defs[0].extra_data.len(), 1);
    assert_eq!(defs[0].extra_data[0].0, "language");
    assert_eq!(defs[0].extra_data[0].1, "en");
    assert_eq!(defs[1].key, "a.nl");
    assert_eq!(defs[1].value, "Hallo");
    assert_eq!(defs[1].extra_data[0].1, "nl");
}

#[test]
fn error_capture_voids_the_whole_file() {
    let (text, tree) = nested_json_tree();
    let mut matches = nested_json_matches();
    // one well-formed entry parsed first, then an entry with an error
    matches.truncate(1);
    matches.push(QueryMatch {
        captures: vec![Capture {
            kind: CaptureKind::TranslationError,
            node: 0,
        }],
    });
    let config = details_config();
    let defs = parse_translation_structure(&text, &config, &tree, &matches);
    assert!(defs.is_none());
}

#[test]
fn flat_key_is_used_when_no_path_applies() {
    // A single top-level pair: the value's ancestors contribute only its
    // own key, so the reconstructed path and the flat key agree.
    let text = "{\"k\": \"v\"}".to_string();
    let nodes = vec![
        node(NodeKind::Other, 0, 10, None, vec![1], None),
        node(NodeKind::Other, 0, 10, Some(0), vec![2], None),
        node(NodeKind::Pair, 1, 9, Some(1), vec![3, 5], Some(3)),
        node(NodeKind::Other, 1, 4, Some(2), vec![4], None),
        node(NodeKind::StringContent, 2, 3, Some(3), vec![], None),
        node(NodeKind::Other, 6, 9, Some(2), vec![6], None),
        node(NodeKind::StringContent, 7, 8, Some(5), vec![], None),
    ];
    let tree = SyntaxTree { nodes };
    let matches = vec![QueryMatch {
        captures: vec![
            Capture {
                kind: CaptureKind::TranslationKey,
                node: 3,
            },
            Capture {
                kind: CaptureKind::TranslationValue,
                node: 5,
            },
            Capture {
                kind: CaptureKind::TranslationGroup,
                node: 1,
            },
        ],
    }];
    let config = ExtensionConfig::default();
    let defs = parse_translation_structure(&text, &config, &tree, &matches).unwrap();
    assert_eq!(defs.len(), 1);
    assert_eq!(defs[0].key, "k");
    assert_eq!(defs[0].value, "v");
    assert!(defs[0].cleaned_key.is_none());
    assert!(defs[0].extra_data.is_empty());
}

#[test]
fn sequence_items_get_bracket_ordinals() {
    let text = "- a\n- b\n".to_string();
    let nodes = vec![
        node(NodeKind::Other, 0, 8, None, vec![1], None),
        node(NodeKind::Other, 0, 8, Some(0), vec![2, 4], None),
        node(NodeKind::BlockSequenceItem, 0, 3, Some(1), vec![3], None),
        node(NodeKind::StringScalar, 2, 3, Some(2), vec![], None),
        node(NodeKind::BlockSequenceItem, 4, 7, Some(1), vec![5], None),
        node(NodeKind::StringScalar, 6, 7, Some(4), vec![], None),
    ];
    let tree = SyntaxTree { nodes };
    assert_eq!(get_array_index_of_node(&tree, 4), Some(1));
    assert_eq!(get_array_index_of_node(&tree, 2), Some(0));
    assert_eq!(get_path_for_node(&tree, &text, 5), "[1]");
    assert_eq!(get_path_for_node(&tree, &text, 3), "[0]");
}

#[test]
fn quoted_yaml_keys_lose_their_quotes_in_paths() {
    let text = "'k': v\n".to_string();
    let nodes = vec![
        node(NodeKind::Other, 0, 7, None, vec![1], None),
        node(
            NodeKind::BlockMappingPair,
            0,
            6,
            Some(0),
            vec![2, 4],
            Some(2),
        ),
        node(NodeKind::Other, 0, 3, Some(1), vec![3], None),
        node(NodeKind::SingleQuoteScalar, 0, 3, Some(2), vec![], None),
        node(NodeKind::StringScalar, 5, 6, Some(1), vec![], None),
    ];
    let tree = SyntaxTree { nodes };
    assert_eq!(get_string_content_from_string(&tree, 2), Some(3));
    assert_eq!(get_path_for_node(&tree, &text, 4), "k");
}

#[test]
fn known_extensions_select_grammars() {
    assert_eq!(get_language_by_extension("json"), Some(LanguageKind::Json));
    assert_eq!(get_language_by_extension("yaml"), Some(LanguageKind::Yaml));
    assert_eq!(get_language_by_extension("yml"), Some(LanguageKind::Yaml));
    assert_eq!(get_language_by_extension("php"), Some(LanguageKind::Php));
    assert_eq!(get_language_by_extension("txt"), None);
    assert!(get_query_source_by_language("json").is_some());
    assert!(get_query_source_by_language("yml").is_some());
    assert!(get_query_source_by_language("rs").is_none());
}

#[test]
fn ordinal_counts_every_sibling_in_document_order() {
    // The ordinal of a sequence item counts all of its parent's children,
    // values and punctuation alike.
    let text = "x, y".to_string();
    let nodes = vec![
        node(NodeKind::Other, 0, 4, None, vec![1, 2, 3], None),
        node(NodeKind::BlockSequenceItem, 0, 1, Some(0), vec![], None),
        node(NodeKind::Other, 1, 2, Some(0), vec![], None),
        node(NodeKind::BlockSequenceItem, 3, 4, Some(0), vec![], None),
    ];
    let tree = SyntaxTree { nodes };
    assert_eq!(get_array_index_of_node(&tree, 1), Some(0));
    assert_eq!(get_array_index_of_node(&tree, 3), Some(2));
    assert_eq!(get_path_for_node(&tree, &text, 3), "[2]");
}

#[test]
fn filter_pattern_derives_the_cleaned_key() {
    let (text, tree) = nested_json_tree();
    let matches = nested_json_matches();
    let config = ExtensionConfig::from_parts(
        vec!["**/*.json".to_string()],
        None,
        None,
        None,
        Some("^[^.]+\\.(.+)$".to_string()),
    )
    .ok()
    .unwrap();
    let defs = parse_translation_structure(&text, &config, &tree, &matches).unwrap();
    assert_eq!(defs[0].key, "a.en");
    assert_eq!(defs[0].cleaned_key.as_deref(), Some("en"));
    assert_eq!(defs[1].cleaned_key.as_deref(), Some("nl"));
}
