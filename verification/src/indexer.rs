//! The translation-file indexer: classifies the captures a structural
//! query produced over a parsed file, reconstructs each value's full
//! dotted path, and emits one Definition per accepted match. A single
//! error capture voids the whole file.
use vstd::prelude::*;
use crate::config::ExtensionConfig;
use crate::definition::Definition;
use crate::patterns::{is_substring_of, regex_capture_group1, regex_capture_named,
    regex_capture_names};
use crate::syntax::{tree_wf, stripped_path_of, SyntaxNode, SyntaxTree, get_path_for_node};
use crate::textutil::{spec_trim, strip_newlines, remove_newlines, trim_matches, str_eq};

verus! {

broadcast use vstd::seq::group_seq_axioms;

/// The grammars the indexer knows translation files by.
#[derive(Clone, Copy, PartialEq, Eq, Structural, Debug)]
pub enum LanguageKind {
    Json,
    Yaml,
    Php,
}

/// The grammar for a file extension, if the extension is a recognized
/// translation-file type.
pub fn get_language_by_extension(ext: &str) -> (r: Option<LanguageKind>)
    ensures
        (r is Some) == (ext@ == "json"@ || ext@ == "yaml"@ || ext@ == "yml"@ || ext@ == "php"@),
        ext@ == "json"@ ==> r == Some(LanguageKind::Json),
        ext@ == "yaml"@ || ext@ == "yml"@ ==> r == Some(LanguageKind::Yaml),
        ext@ == "php"@ ==> r == Some(LanguageKind::Php),
{
    proof {
        reveal_strlit("json");
        reveal_strlit("yaml");
        reveal_strlit("yml");
        reveal_strlit("php");
        assert("json"@[0] == 'j' && "yaml"@[0] == 'y' && "yml"@[0] == 'y' && "php"@[0] == 'p');
        assert("yaml"@.len() == 4 && "yml"@.len() == 3 && "php"@.len() == 3);
        assert("yml"@[0] == 'y' && "php"@[0] == 'p');
    }
    if str_eq(ext, "json") {
        Some(LanguageKind::Json)
    } else if str_eq(ext, "yaml") || str_eq(ext, "yml") {
        Some(LanguageKind::Yaml)
    } else if str_eq(ext, "php") {
        Some(LanguageKind::Php)
    } else {
        None
    }
}

/// The structural query run over a file of the given extension: it names
/// the captures the indexer classifies — the key, the value, the group
/// marking nested placement, and the error marker.
pub fn get_query_source_by_language(ext: &str) -> (r: Option<&'static str>)
    ensures
        (r is Some) == (ext@ == "json"@ || ext@ == "yaml"@ || ext@ == "yml"@ || ext@ == "php"@),
        ext@ == "json"@ ==> (r matches Some(q) && q@ == (
        "(object) @translation_group\n(pair\n  key: (string) @translation_key\n  value: (string) @translation_value)\n(ERROR) @translation_error\n")@),
        ext@ == "yaml"@ || ext@ == "yml"@ ==> (r matches Some(q) && q@ == (
        "(block_mapping) @translation_group\n(block_mapping_pair\n  key: (flow_node) @translation_key\n  value: (flow_node) @translation_value)\n(ERROR) @translation_error\n")@),
        ext@ == "php"@ ==> (r matches Some(q) && q@ == (
        "(array_creation_expression) @translation_group\n(array_element_initializer\n  (string) @translation_key\n  (string) @translation_value)\n(ERROR) @translation_error\n")@),
{
    proof {
        reveal_strlit("json");
        reveal_strlit("yaml");
        reveal_strlit("yml");
        reveal_strlit("php");
        assert("json"@[0] == 'j' && "yaml"@[0] == 'y' && "yml"@[0] == 'y' && "php"@[0] == 'p');
        assert("yaml"@.len() == 4 && "yml"@.len() == 3 && "php"@.len() == 3);
    }
    if str_eq(ext, "json") {
        Some(
            "(object) @translation_group\n(pair\n  key: (string) @translation_key\n  value: (string) @translation_value)\n(ERROR) @translation_error\n",
        )
    } else if str_eq(ext, "yaml") || str_eq(ext, "yml") {
        Some(
            "(block_mapping) @translation_group\n(block_mapping_pair\n  key: (flow_node) @translation_key\n  value: (flow_node) @translation_value)\n(ERROR) @translation_error\n",
        )
    } else if str_eq(ext, "php") {
        Some(
            "(array_creation_expression) @translation_group\n(array_element_initializer\n  (string) @translation_key\n  (string) @translation_value)\n(ERROR) @translation_error\n",
        )
    } else {
        None
    }
}

/// What one capture of a structural query was named.
#[derive(Clone, Copy, PartialEq, Eq, Structural, Debug)]
pub enum CaptureKind {
    TranslationKey,
    TranslationValue,
    TranslationGroup,
    TranslationError,
}

/// One named capture: its classification and the captured node.
#[derive(Clone, Copy, PartialEq, Eq, Structural, Debug)]
pub struct Capture {
    pub kind: CaptureKind,
    pub node: usize,
}

/// The captures of one query match, in capture order.
pub struct QueryMatch {
    pub captures: Vec<Capture>,
}

/// Every captured node lies within the tree.
pub open spec fn captures_wf(t: Seq<SyntaxNode>, ms: Seq<QueryMatch>) -> bool {
    forall|mi: int, ci: int|
        0 <= mi < ms.len() && 0 <= ci < ms[mi].captures@.len() ==> (#[trigger] ms[mi].captures@[ci]).node
            < t.len()
}

/// A captured key or value with its surrounding quotes removed.
pub open spec fn spec_trim_key(s: Seq<char>) -> Seq<char> {
    spec_trim(spec_trim(s, '\''), '"')
}

/// The (key, value) pair emitted for one accepted match: the value's
/// reconstructed path when it has one, else the flat key without quotes;
/// and the value text without quotes.
pub open spec fn spec_emit(t: Seq<SyntaxNode>, text: Seq<char>, key: Seq<char>, vnode: int) -> (
    Seq<char>,
    Seq<char>,
) {
    let path = stripped_path_of(t, text, vnode);
    let k = if path.len() > 0 {
        path
    } else {
        spec_trim_key(key)
    };
    let v = spec_trim_key(text.subrange(t[vnode].start as int, t[vnode].end as int));
    (k, v)
}

/// Process the captures of one match from position `ci`, carrying the key
/// text, the value node and the group mark seen so far; a pair is emitted
/// as soon as all three are present, and the three reset. An error
/// capture voids everything.
pub open spec fn match_step(
    t: Seq<SyntaxNode>,
    text: Seq<char>,
    caps: Seq<Capture>,
    ci: int,
    key: Seq<char>,
    value: Option<int>,
    has_group: bool,
) -> Option<Seq<(Seq<char>, Seq<char>)>>
    decreases caps.len() - ci,
{
    if ci < 0 || ci >= caps.len() {
        Some(Seq::empty())
    } else {
        let c = caps[ci];
        if c.kind == CaptureKind::TranslationError {
            None
        } else {
            let key2 = if c.kind == CaptureKind::TranslationKey {
                text.subrange(t[c.node as int].start as int, t[c.node as int].end as int)
            } else {
                key
            };
            let value2 = if c.kind == CaptureKind::TranslationValue {
                Some(c.node as int)
            } else {
                value
            };
            let group2 = if c.kind == CaptureKind::TranslationGroup {
                true
            } else {
                has_group
            };
            if key2.len() > 0 && value2 is Some && group2 {
                match match_step(t, text, caps, ci + 1, Seq::empty(), None, false) {
                    Some(rest) => Some(seq![spec_emit(t, text, key2, value2->0)] + rest),
                    None => None,
                }
            } else {
                match_step(t, text, caps, ci + 1, key2, value2, group2)
            }
        }
    }
}

/// The pairs extracted from the matches from position `mi` on; `None` as
/// soon as any match holds an error capture.
pub open spec fn extract_from(
    t: Seq<SyntaxNode>,
    text: Seq<char>,
    ms: Seq<QueryMatch>,
    mi: int,
) -> Option<Seq<(Seq<char>, Seq<char>)>>
    decreases ms.len() - mi,
{
    if mi < 0 || mi >= ms.len() {
        Some(Seq::empty())
    } else {
        match match_step(t, text, ms[mi].captures@, 0, Seq::empty(), None, false) {
            None => None,
            Some(pairs) => match extract_from(t, text, ms, mi + 1) {
                None => None,
                Some(rest) => Some(pairs + rest),
            },
        }
    }
}

/// All (key, value) pairs a file's matches yield, or `None` when the file
/// is structurally invalid.
pub open spec fn spec_extract(t: Seq<SyntaxNode>, text: Seq<char>, ms: Seq<QueryMatch>) -> Option<
    Seq<(Seq<char>, Seq<char>)>,
> {
    extract_from(t, text, ms, 0)
}

/// Extraction of one match fails exactly when an error capture stands at
/// or after the scan position, whatever state the scan carries.
pub proof fn lemma_match_step_error(
    t: Seq<SyntaxNode>,
    text: Seq<char>,
    caps: Seq<Capture>,
    ci: int,
    key: Seq<char>,
    value: Option<int>,
    has_group: bool,
)
    requires
        0 <= ci,
    ensures
        (match_step(t, text, caps, ci, key, value, has_group) is None) <==> exists|k: int|
            ci <= k < caps.len() && (#[trigger] caps[k]).kind == CaptureKind::TranslationError,
    decreases caps.len() - ci,
{
    if ci < 0 || ci >= caps.len() {
    } else {
        let c = caps[ci];
        if c.kind == CaptureKind::TranslationError {
            assert(caps[ci].kind == CaptureKind::TranslationError);
        } else {
            let key2 = if c.kind == CaptureKind::TranslationKey {
                text.subrange(t[c.node as int].start as int, t[c.node as int].end as int)
            } else {
                key
            };
            let value2 = if c.kind == CaptureKind::TranslationValue {
                Some(c.node as int)
            } else {
                value
            };
            let group2 = if c.kind == CaptureKind::TranslationGroup {
                true
            } else {
                has_group
            };
            if key2.len() > 0 && value2 is Some && group2 {
                lemma_match_step_error(t, text, caps, ci + 1, Seq::empty(), None, false);
            } else {
                lemma_match_step_error(t, text, caps, ci + 1, key2, value2, group2);
            }
            if exists|k: int|
                ci <= k < caps.len() && (#[trigger] caps[k]).kind
                    == CaptureKind::TranslationError {
                let k = choose|k: int|
                    ci <= k < caps.len() && (#[trigger] caps[k]).kind
                        == CaptureKind::TranslationError;
                assert(k != ci);
                assert(ci + 1 <= k < caps.len() && caps[k].kind
                    == CaptureKind::TranslationError);
            }
        }
    }
}

/// A file's extraction fails exactly when an error capture stands in any
/// of its matches: one error voids all definitions of the file.
pub proof fn lemma_error_voids_file(t: Seq<SyntaxNode>, text: Seq<char>, ms: Seq<QueryMatch>)
    ensures
        (spec_extract(t, text, ms) is None) <==> exists|m: int, c: int|
            0 <= m < ms.len() && 0 <= c < ms[m].captures@.len() && (#[trigger] ms[m].captures@[c]).kind
                == CaptureKind::TranslationError,
{
    lemma_extract_error(t, text, ms, 0);
}

proof fn lemma_extract_error(t: Seq<SyntaxNode>, text: Seq<char>, ms: Seq<QueryMatch>, mi: int)
    requires
        mi >= 0,
    ensures
        (extract_from(t, text, ms, mi) is None) <==> exists|m: int, c: int|
            mi <= m < ms.len() && 0 <= c < ms[m].captures@.len() && (#[trigger] ms[m].captures@[c]).kind
                == CaptureKind::TranslationError,
    decreases ms.len() - mi,
{
    if mi >= ms.len() {
    } else {
        lemma_match_step_error(t, text, ms[mi].captures@, 0, Seq::empty(), None, false);
        lemma_extract_error(t, text, ms, mi + 1);
        if match_step(t, text, ms[mi].captures@, 0, Seq::empty(), None, false) is None {
            let k = choose|k: int|
                0 <= k < ms[mi].captures@.len() && (#[trigger] ms[mi].captures@[k]).kind
                    == CaptureKind::TranslationError;
            assert(mi <= mi < ms.len() && 0 <= k < ms[mi].captures@.len()
                && ms[mi].captures@[k].kind == CaptureKind::TranslationError);
        } else if extract_from(t, text, ms, mi + 1) is None {
            let (m, c) = choose|m: int, c: int|
                mi + 1 <= m < ms.len() && 0 <= c < ms[m].captures@.len() && (#[trigger] ms[m].captures@[c]).kind
                    == CaptureKind::TranslationError;
            assert(mi <= m < ms.len() && 0 <= c < ms[m].captures@.len() && ms[m].captures@[c].kind
                == CaptureKind::TranslationError);
        } else {
            if exists|m: int, c: int|
                mi <= m < ms.len() && 0 <= c < ms[m].captures@.len() && (#[trigger] ms[m].captures@[c]).kind
                    == CaptureKind::TranslationError {
                let (m, c) = choose|m: int, c: int|
                    mi <= m < ms.len() && 0 <= c < ms[m].captures@.len() && (#[trigger] ms[m].captures@[c]).kind
                        == CaptureKind::TranslationError;
                if m == mi {
                    assert(match_step(t, text, ms[mi].captures@, 0, Seq::empty(), None, false)
                        is None);
                } else {
                    assert(mi + 1 <= m < ms.len() && 0 <= c < ms[m].captures@.len()
                        && ms[m].captures@[c].kind == CaptureKind::TranslationError);
                }
            }
        }
    }
}

/// What the configured patterns may add to an emitted definition: a
/// cleaned key only when a filter is configured, and then a part of the
/// key with its line feeds removed; metadata only when a details pattern
/// is configured, each entry a part of the key.
pub open spec fn decorated_ok(config: ExtensionConfig, d: Definition) -> bool {
    &&& (config.key.filter is None ==> d.cleaned_key is None)
    &&& (d.cleaned_key matches Some(ck) ==> is_substring_of(ck@, strip_newlines(d.key@)))
    &&& (config.key.details is None ==> d.extra_data@.len() == 0)
    &&& forall|k: int|
        0 <= k < d.extra_view().len() ==> is_substring_of((#[trigger] d.extra_view()[k]).1, d.key@)
}

/// The cleaned key of a path: what capture group 1 of the configured
/// filter pattern matches in the path, line feeds removed first.
pub fn get_cleaned_key_for_path(path: &String, config: &ExtensionConfig) -> (r: Option<String>)
    ensures
        config.key.filter is None ==> r is None,
        r matches Some(ck) ==> is_substring_of(ck@, strip_newlines(path@)),
{
    match &config.key.filter {
        Some(re) => {
            let stripped = remove_newlines(path.as_str());
            regex_capture_group1(re, stripped.as_str())
        },
        None => None,
    }
}

/// The metadata of a path: for every named group of the configured
/// details pattern that matches in the path, the group's name and what it
/// matched.
pub fn get_extra_data_for_path(path: &String, config: &ExtensionConfig) -> (r: Vec<
    (String, String),
>)
    ensures
        config.key.details is None ==> r@.len() == 0,
        forall|k: int| 0 <= k < r@.len() ==> is_substring_of((#[trigger] r@[k]).1@, path@),
{
    let mut out: Vec<(String, String)> = Vec::new();
    match &config.key.details {
        Some(re) => {
            let names = regex_capture_names(re);
            let n = names.len();
            let mut i: usize = 0;
            while i < n
                invariant
                    0 <= i <= n,
                    n == names@.len(),
                    forall|k: int|
                        0 <= k < out@.len() ==> is_substring_of((#[trigger] out@[k]).1@, path@),
                decreases n - i,
            {
                match regex_capture_named(re, path.as_str(), names[i].as_str()) {
                    Some(v) => {
                        out.push((names[i].clone(), v));
                    },
                    None => {},
                }
                i += 1;
            }
            out
        },
        None => out,
    }
}

/// The language tag of a path: what the `language` group of the
/// configured details pattern matches in it.
pub fn get_language_for_path(path: &String, config: &ExtensionConfig) -> (r: Option<String>)
    ensures
        config.key.details is None ==> r is None,
        r matches Some(l) ==> is_substring_of(l@, path@),
{
    match &config.key.details {
        Some(re) => regex_capture_named(re, path.as_str(), "language"),
        None => None,
    }
}

/// Remove the quotes around a captured key or value.
fn trim_key(s: &str) -> (r: String)
    ensures
        r@ == spec_trim_key(s@),
{
    let once = trim_matches(s, '\'');
    trim_matches(once.as_str(), '"')
}

/// The (key, value) views of emitted definitions.
pub open spec fn kv_views(defs: Seq<Definition>) -> Seq<(Seq<char>, Seq<char>)> {
    defs.map_values(|d: Definition| (d.key@, d.value@))
}

/// Walk the captures of one match and append a Definition for every
/// accepted combination; reports `false`, touching nothing further, when
/// a capture marks the file as invalid.
fn process_match(
    text: &String,
    config: &ExtensionConfig,
    tree: &SyntaxTree,
    caps: &Vec<Capture>,
    definitions: &mut Vec<Definition>,
) -> (ok: bool)
    requires
        tree_wf(tree.nodes@, text@.len() as int),
        forall|ci: int| 0 <= ci < caps@.len() ==> (#[trigger] caps@[ci]).node < tree.nodes@.len(),
    ensures
        ok == (match_step(tree.nodes@, text@, caps@, 0, Seq::empty(), None, false) is Some),
        ok ==> kv_views(final(definitions)@) == kv_views(old(definitions)@) + match_step(
            tree.nodes@,
            text@,
            caps@,
            0,
            Seq::empty(),
            None,
            false,
        )->0,
        final(definitions)@.len() >= old(definitions)@.len(),
        final(definitions)@.subrange(0, old(definitions)@.len() as int) == old(definitions)@,
        forall|i: int|
            old(definitions)@.len() <= i < final(definitions)@.len() ==> (#[trigger] final(
                definitions)@[i]).file is None && decorated_ok(*config, final(definitions)@[i]),
{
    broadcast use Seq::lemma_push_map_commute;

    let ghost t = tree.nodes@;
    let ghost txt = text@;
    let ghost caps_seq = caps@;
    let ghost base = definitions@;
    let n_caps = caps.len();
    let mut ci: usize = 0;
    let mut key: String = String::new();
    let mut value: Option<usize> = None;
    let mut has_group = false;
    proof {
        assert(key@ =~= Seq::<char>::empty());
        assert(kv_views(base) + Seq::<(Seq<char>, Seq<char>)>::empty() =~= kv_views(base));
        assert(base.subrange(0, base.len() as int) =~= base);
    }
    while ci < n_caps
        invariant
            0 <= ci <= n_caps,
            n_caps == caps_seq.len(),
            caps_seq == caps@,
            t == tree.nodes@,
            txt == text@,
            tree_wf(t, txt.len() as int),
            forall|k: int| 0 <= k < caps_seq.len() ==> (#[trigger] caps_seq[k]).node < t.len(),
            value matches Some(v) ==> v < t.len(),
            base == old(definitions)@,
            definitions@.len() >= base.len(),
            definitions@.subrange(0, base.len() as int) == base,
            forall|i: int|
                base.len() <= i < definitions@.len() ==> (#[trigger] definitions@[i]).file is None
                    && decorated_ok(*config, definitions@[i]),
            ({
                let cur = match_step(
                    t,
                    txt,
                    caps_seq,
                    ci as int,
                    key@,
                    (match value {
                        Some(v) => Some(v as int),
                        None => None,
                    }),
                    has_group,
                );
                let total = match_step(t, txt, caps_seq, 0, Seq::empty(), None, false);
                match total {
                    Some(tp) => (cur matches Some(cp) && tp == kv_views(
                        definitions@.subrange(base.len() as int, definitions@.len() as int),
                    ) + cp),
                    None => cur is None,
                }
            }),
        decreases n_caps - ci,
    {
        let capture = caps[ci];
        let ghost key0 = key@;
        let ghost value0: Option<int> = match value {
            Some(v) => Some(v as int),
            None => None,
        };
        let ghost group0 = has_group;
        if capture.kind == CaptureKind::TranslationError {
            proof {
                assert(match_step(t, txt, caps_seq, ci as int, key0, value0, group0) is None);
            }
            return false;
        }
        if capture.kind == CaptureKind::TranslationKey {
            let node = &tree.nodes[capture.node];
            key = String::from_str(text.as_str().substring_char(node.start, node.end));
        } else if capture.kind == CaptureKind::TranslationValue {
            value = Some(capture.node);
        } else if capture.kind == CaptureKind::TranslationGroup {
            has_group = true;
        }
        let ghost key2 = key@;
        let ghost value2: Option<int> = match value {
            Some(v) => Some(v as int),
            None => None,
        };
        let ghost group2 = has_group;
        proof {
            assert(key2 == (if caps_seq[ci as int].kind == CaptureKind::TranslationKey {
                txt.subrange(
                    t[caps_seq[ci as int].node as int].start as int,
                    t[caps_seq[ci as int].node as int].end as int,
                )
            } else {
                key0
            }));
        }
        let emit_now = !key.as_str().is_empty() && value.is_some() && has_group;
        if emit_now {
            let vnode = match value {
                Some(v) => v,
                None => unreached(),
            };
            let path = get_path_for_node(tree, text, vnode);
            let use_path = !path.as_str().is_empty();
            let key_final = if use_path {
                path
            } else {
                trim_key(key.as_str())
            };
            let vstart = tree.nodes[vnode].start;
            let vend = tree.nodes[vnode].end;
            let value_str = trim_key(text.as_str().substring_char(vstart, vend));
            let cleaned = get_cleaned_key_for_path(&key_final, config);
            let extra = get_extra_data_for_path(&key_final, config);
            let ghost defs0 = definitions@;
            let d = Definition {
                key: key_final,
                cleaned_key: cleaned,
                file: None,
                extra_data: extra,
                value: value_str,
            };
            proof {
                assert((d.key@, d.value@) == spec_emit(t, txt, key2, value2->0));
            }
            definitions.push(d);
            key = String::new();
            value = None;
            has_group = false;
            proof {
                assert(definitions@ == defs0.push(definitions@[defs0.len() as int]));
                assert(definitions@.subrange(0, base.len() as int) =~= base);
                assert(key@ =~= Seq::<char>::empty());
                let tail0 = defs0.subrange(base.len() as int, defs0.len() as int);
                let tail1 = definitions@.subrange(base.len() as int, definitions@.len() as int);
                assert(tail1 =~= tail0.push(definitions@[defs0.len() as int]));
                assert(kv_views(tail1) =~= kv_views(tail0).push(
                    spec_emit(t, txt, key2, value2->0),
                ));
                let total = match_step(t, txt, caps_seq, 0, Seq::empty(), None, false);
                let cur = match_step(t, txt, caps_seq, ci as int, key0, value0, group0);
                let next = match_step(t, txt, caps_seq, ci as int + 1, Seq::empty(), None, false);
                assert(cur == (match next {
                    Some(rest) => Some(
                        seq![spec_emit(t, txt, key2, value2->0)] + rest,
                    ),
                    None => None,
                }));
                if total is Some {
                    let tp = total->0;
                    let cp = cur->0;
                    let np = next->0;
                    assert(cp == seq![spec_emit(t, txt, key2, value2->0)] + np);
                    assert(tp == kv_views(tail0) + cp);
                    assert(kv_views(tail0) + (seq![spec_emit(t, txt, key2, value2->0)] + np)
                        =~= kv_views(tail1) + np);
                }
            }
        } else {
            proof {
                assert(match_step(t, txt, caps_seq, ci as int, key0, value0, group0) == match_step(
                    t,
                    txt,
                    caps_seq,
                    ci as int + 1,
                    key2,
                    value2,
                    group2,
                ));
            }
        }
        ci += 1;
    }
    proof {
        assert(match_step(
            t,
            txt,
            caps_seq,
            ci as int,
            key@,
            (match value {
                Some(v) => Some(v as int),
                None => None,
            }),
            has_group,
        ) == Some(Seq::<(Seq<char>, Seq<char>)>::empty()));
        let total = match_step(t, txt, caps_seq, 0, Seq::empty(), None, false);
        if total is Some {
            assert(kv_views(definitions@.subrange(base.len() as int, definitions@.len() as int))
                + Seq::<(Seq<char>, Seq<char>)>::empty() =~= kv_views(
                definitions@.subrange(base.len() as int, definitions@.len() as int),
            ));
            assert(kv_views(definitions@) =~= kv_views(base) + kv_views(
                definitions@.subrange(base.len() as int, definitions@.len() as int),
            ));
        }
    }
    true
}

/// Walk every match of a structural query over one translation file and
/// emit a Definition for each accepted match: the value's reconstructed
/// path — or the flat key where no path applies — the unquoted value,
/// and what the configured patterns add. Returns `None`, and no
/// definitions at all, when any capture marks the file as invalid.
pub fn parse_translation_structure(
    text: &String,
    config: &ExtensionConfig,
    tree: &SyntaxTree,
    matches: &Vec<QueryMatch>,
) -> (r: Option<Vec<Definition>>)
    requires
        tree_wf(tree.nodes@, text@.len() as int),
        captures_wf(tree.nodes@, matches@),
    ensures
        (r is Some) == (spec_extract(tree.nodes@, text@, matches@) is Some),
        r matches Some(defs) ==> ({
            let pairs = spec_extract(tree.nodes@, text@, matches@)->0;
            &&& kv_views(defs@) == pairs
            &&& forall|i: int|
                0 <= i < defs@.len() ==> (#[trigger] defs@[i]).file is None && decorated_ok(
                    *config,
                    defs@[i],
                )
        }),
{
    let ghost t = tree.nodes@;
    let ghost txt = text@;
    let ghost ms = matches@;
    let mut definitions: Vec<Definition> = Vec::new();
    let n_matches = matches.len();
    let mut mi: usize = 0;
    proof {
        assert(kv_views(definitions@) =~= Seq::<(Seq<char>, Seq<char>)>::empty());
    }
    while mi < n_matches
        invariant
            0 <= mi <= n_matches,
            n_matches == ms.len(),
            t == tree.nodes@,
            txt == text@,
            ms == matches@,
            tree_wf(t, txt.len() as int),
            captures_wf(t, ms),
            extract_from(t, txt, ms, mi as int) matches Some(rest) ==> (extract_from(t, txt, ms, 0)
                matches Some(all) && all == kv_views(definitions@) + rest),
            (extract_from(t, txt, ms, mi as int) is None) ==> (extract_from(t, txt, ms, 0) is None),
            forall|i: int|
                0 <= i < definitions@.len() ==> (#[trigger] definitions@[i]).file is None
                    && decorated_ok(*config, definitions@[i]),
        decreases n_matches - mi,
    {
        let ghost defs0 = definitions@;
        let ok = process_match(text, config, tree, &matches[mi].captures, &mut definitions);
        proof {
            assert forall|i: int| 0 <= i < definitions@.len() implies (#[trigger] definitions@[i]).file
                is None && decorated_ok(*config, definitions@[i]) by {
                if i < defs0.len() {
                    assert(definitions@.subrange(0, defs0.len() as int)[i] == definitions@[i]);
                }
            }
        }
        if !ok {
            proof {
                assert(extract_from(t, txt, ms, mi as int) is None);
            }
            return None;
        }
        proof {
            let step = match_step(t, txt, ms[mi as int].captures@, 0, Seq::empty(), None, false);
            let rest = extract_from(t, txt, ms, mi as int + 1);
            assert(extract_from(t, txt, ms, mi as int) == (match rest {
                Some(rp) => Some(step->0 + rp),
                None => None,
            }));
            if rest is Some {
                let rp = rest->0;
                assert(kv_views(defs0) + (step->0 + rp) =~= (kv_views(defs0) + step->0) + rp);
            }
        }
        mi += 1;
    }
    proof {
        assert(extract_from(t, txt, ms, mi as int) == Some(Seq::<(Seq<char>, Seq<char>)>::empty()));
        assert(kv_views(definitions@) + Seq::<(Seq<char>, Seq<char>)>::empty() =~= kv_views(
            definitions@,
        ));
    }
    Some(definitions)
}

} // verus!
