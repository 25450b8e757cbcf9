//! The service state behind the request handlers: the set of open
//! documents, the definition index, and the configuration, with the
//! document lifecycle, the hover and completion queries, and the path
//! that publishes one re-indexed file.
use vstd::prelude::*;
use crate::config::ExtensionConfig;
use crate::definition::{Definition, TranslationFile};
use crate::document::{FullTextDocument, Position, Range, TextDocumentContentChangeEvent,
    spec_apply_changes, spec_offset_at, spec_position_at};
use crate::index::{DefinitionIndex, defs_of, spec_detail, spec_identifiers};
use crate::indexer::{parse_translation_structure, captures_wf, decorated_ok, kv_views,
    spec_extract, QueryMatch};
use crate::patterns::{is_substring_of, regex_capture_named};
use crate::string_helper::{find_translation_key_by_position, get_editing_range,
    spec_editing_range, spec_find_key};
use crate::syntax::{tree_wf, SyntaxTree};
use crate::textutil::str_eq;

verus! {

broadcast use vstd::seq::group_seq_axioms;

/// A request named a document that is not open.
#[derive(Clone, Copy, PartialEq, Eq, Structural, Debug)]
pub enum BackendError {
    DocumentNotFound,
}

/// A translation file whose structure the indexer rejected.
#[derive(Clone, Copy, PartialEq, Eq, Structural, Debug)]
pub struct InvalidTranslationFileStructure {}

/// The position of the first open document with `uri` at or after `i`.
pub open spec fn spec_find_doc_from(
    docs: Seq<FullTextDocument>,
    uri: Seq<char>,
    i: int,
) -> Option<int>
    decreases docs.len() - i,
{
    if i < 0 || i >= docs.len() {
        None
    } else if docs[i].uri@ == uri {
        Some(i)
    } else {
        spec_find_doc_from(docs, uri, i + 1)
    }
}

/// The documents that remain when every document with `uri` is closed,
/// scanned from `i`.
pub open spec fn keep_docs(docs: Seq<FullTextDocument>, uri: Seq<char>, i: int) -> Seq<
    FullTextDocument,
>
    decreases docs.len() - i,
{
    if i < 0 || i >= docs.len() {
        Seq::empty()
    } else if docs[i].uri@ == uri {
        keep_docs(docs, uri, i + 1)
    } else {
        seq![docs[i]] + keep_docs(docs, uri, i + 1)
    }
}

proof fn lemma_keep_docs_congruent(
    a: Seq<FullTextDocument>,
    b: Seq<FullTextDocument>,
    uri: Seq<char>,
    ia: int,
    ib: int,
)
    requires
        0 <= ia <= a.len(),
        0 <= ib <= b.len(),
        a.len() - ia == b.len() - ib,
        forall|k: int| 0 <= k < a.len() - ia ==> #[trigger] a[ia + k] == b[ib + k],
    ensures
        keep_docs(a, uri, ia) == keep_docs(b, uri, ib),
    decreases a.len() - ia,
{
    if ia >= a.len() {
    } else {
        assert(a[ia + 0] == b[ib + 0]);
        assert forall|k: int| 0 <= k < a.len() - (ia + 1) implies #[trigger] a[ia + 1 + k] == b[ib
            + 1 + k] by {
            assert(a[ia + (k + 1)] == b[ib + (k + 1)]);
        }
        lemma_keep_docs_congruent(a, b, uri, ia + 1, ib + 1);
    }
}

/// The language stamped on a definition through its source file, if any.
pub open spec fn file_language_view(d: Definition) -> Option<Seq<char>> {
    match d.file {
        Some(tf) => match tf.language {
            Some(l) => Some(l@),
            None => None,
        },
        None => None,
    }
}

/// The slice position a re-indexed file lands in: its present slice, or
/// a fresh one at the end.
pub open spec fn slice_slot(files0: Seq<crate::index::FileSlice>, path: Seq<char>) -> int {
    match crate::index::spec_find_slice_from(files0, path, 0) {
        Some(i) => i,
        None => files0.len() as int,
    }
}

/// The in-memory state the request handlers share.
pub struct Backend {
    pub definitions: DefinitionIndex,
    pub config: ExtensionConfig,
    pub documents: Vec<FullTextDocument>,
}

impl Backend {
    /// Every open document's cached line table matches its text.
    pub open spec fn wf(&self) -> bool {
        forall|k: int| 0 <= k < self.documents@.len() ==> (#[trigger] self.documents@[k]).wf()
    }

    /// A fresh backend: no documents, no definitions, an empty
    /// configuration.
    pub fn new() -> (r: Backend)
        ensures
            r.wf(),
            r.documents@.len() == 0,
            r.definitions.files@.len() == 0,
    {
        Backend {
            definitions: DefinitionIndex::new(),
            config: Default::default(),
            documents: Vec::new(),
        }
    }

    /// Install a new configuration.
    pub fn set_config(&mut self, config: ExtensionConfig)
        requires
            old(self).wf(),
        ensures
            final(self).wf(),
            final(self).config == config,
            final(self).documents == old(self).documents,
            final(self).definitions == old(self).definitions,
    {
        self.config = config;
    }

    fn find_document(&self, uri: &String) -> (r: Option<usize>)
        ensures
            (r is Some) == (spec_find_doc_from(self.documents@, uri@, 0) is Some),
            r matches Some(i) ==> i as int == spec_find_doc_from(self.documents@, uri@, 0)->0 && i
                < self.documents@.len(),
    {
        let n = self.documents.len();
        let mut i: usize = 0;
        while i < n
            invariant
                0 <= i <= n,
                n == self.documents@.len(),
                spec_find_doc_from(self.documents@, uri@, 0) == spec_find_doc_from(
                    self.documents@,
                    uri@,
                    i as int,
                ),
            decreases n - i,
        {
            if str_eq(self.documents[i].uri.as_str(), uri.as_str()) {
                return Some(i);
            }
            i += 1;
        }
        None
    }

    /// Open a document: it joins the set of open documents unchanged.
    pub fn open_document(&mut self, uri: String, language_id: String, version: i64, text: String)
        requires
            old(self).wf(),
        ensures
            final(self).wf(),
            final(self).documents@.len() == old(self).documents@.len() + 1,
            final(self).documents@.subrange(0, old(self).documents@.len() as int) == old(self).documents@,
            ({
                let d = final(self).documents@.last();
                d.uri@ == uri@ && d.language_id@ == language_id@ && d.version == version && d.text@
                    == text@
            }),
            final(self).definitions == old(self).definitions,
            final(self).config == old(self).config,
    {
        let ghost docs0 = self.documents@;
        let doc = FullTextDocument::new(uri, language_id, version, text);
        self.documents.push(doc);
        proof {
            assert(self.documents@.subrange(0, docs0.len() as int) =~= docs0);
        }
    }

    /// Close every open document with this uri.
    pub fn close_document(&mut self, uri: &String)
        requires
            old(self).wf(),
        ensures
            final(self).wf(),
            final(self).documents@ == keep_docs(old(self).documents@, uri@, 0),
            final(self).definitions == old(self).definitions,
            final(self).config == old(self).config,
    {
        let ghost docs0 = self.documents@;
        let mut i: usize = 0;
        proof {
            assert(docs0.subrange(0, 0) =~= Seq::<FullTextDocument>::empty());
            assert(Seq::<FullTextDocument>::empty() + keep_docs(docs0, uri@, 0) =~= keep_docs(
                docs0,
                uri@,
                0,
            ));
        }
        while i < self.documents.len()
            invariant
                0 <= i <= self.documents@.len(),
                forall|k: int|
                    0 <= k < self.documents@.len() ==> (#[trigger] self.documents@[k]).wf(),
                forall|k: int| 0 <= k < i ==> (#[trigger] self.documents@[k]).uri@ != uri@,
                keep_docs(docs0, uri@, 0) == self.documents@.subrange(0, i as int) + keep_docs(
                    self.documents@,
                    uri@,
                    i as int,
                ),
                self.definitions == old(self).definitions,
                self.config == old(self).config,
            decreases self.documents@.len() - i,
        {
            if str_eq(self.documents[i].uri.as_str(), uri.as_str()) {
                let ghost cur = self.documents@;
                self.documents.remove(i);
                proof {
                    assert(self.documents@ == cur.remove(i as int));
                    assert(self.documents@.subrange(0, i as int) =~= cur.subrange(0, i as int));
                    assert forall|k: int| 0 <= k < cur.len() - (i + 1) implies #[trigger] cur[i + 1
                        + k] == self.documents@[i + k] by {
                        assert(self.documents@[i + k] == cur.remove(i as int)[i + k]);
                    }
                    lemma_keep_docs_congruent(cur, self.documents@, uri@, i as int + 1, i as int);
                    assert(keep_docs(cur, uri@, i as int) == keep_docs(cur, uri@, i as int + 1));
                    assert forall|k: int|
                        0 <= k < self.documents@.len() implies (#[trigger] self.documents@[k]).wf()
                    by {
                        if k < i {
                            assert(self.documents@[k] == cur[k]);
                        } else {
                            assert(self.documents@[k] == cur[k + 1]);
                        }
                    }
                }
            } else {
                proof {
                    let cur = self.documents@;
                    assert(keep_docs(cur, uri@, i as int) == seq![cur[i as int]] + keep_docs(
                        cur,
                        uri@,
                        i as int + 1,
                    ));
                    assert(cur.subrange(0, i as int + 1) =~= cur.subrange(0, i as int).push(
                        cur[i as int],
                    ));
                    assert(cur.subrange(0, i as int) + (seq![cur[i as int]] + keep_docs(
                        cur,
                        uri@,
                        i as int + 1,
                    )) =~= cur.subrange(0, i as int + 1) + keep_docs(cur, uri@, i as int + 1));
                }
                i += 1;
            }
        }
        proof {
            let cur = self.documents@;
            assert(keep_docs(cur, uri@, i as int) == Seq::<FullTextDocument>::empty());
            assert(cur.subrange(0, i as int) =~= cur);
            assert(cur + Seq::<FullTextDocument>::empty() =~= cur);
        }
    }

    /// Apply the editor's changes to one open document, in arrival order.
    /// A uri that names no open document is reported, and nothing
    /// changes.
    pub fn apply_edit(
        &mut self,
        uri: &String,
        changes: Vec<TextDocumentContentChangeEvent>,
        version: i64,
    ) -> (r: Result<(), BackendError>)
        requires
            old(self).wf(),
        ensures
            final(self).wf(),
            final(self).definitions == old(self).definitions,
            final(self).config == old(self).config,
            match spec_find_doc_from(old(self).documents@, uri@, 0) {
                Some(i) => {
                    &&& r is Ok
                    &&& final(self).documents@.len() == old(self).documents@.len()
                    &&& forall|k: int|
                        0 <= k < old(self).documents@.len() && k != i ==> #[trigger] final(self).documents@[k] == old(self).documents@[k]
                    &&& final(self).documents@[i].text@ == spec_apply_changes(
                        old(self).documents@[i].text@,
                        changes@,
                    )
                    &&& final(self).documents@[i].uri == old(self).documents@[i].uri
                    &&& final(self).documents@[i].language_id == old(self).documents@[i].language_id
                    &&& final(self).documents@[i].version == (if changes@.len() > 0 {
                        version
                    } else {
                        old(self).documents@[i].version
                    })
                },
                None => r == Err::<(), BackendError>(BackendError::DocumentNotFound) && final(self).documents == old(self).documents,
            },
    {
        let idx = match self.find_document(uri) {
            Some(i) => i,
            None => {
                return Err(BackendError::DocumentNotFound);
            },
        };
        let ghost docs0 = self.documents@;
        let mut doc = self.documents.remove(idx);
        doc.update(changes, version);
        self.documents.insert(idx, doc);
        proof {
            assert forall|k: int| 0 <= k < docs0.len() && k != idx as int implies #[trigger] self
                .documents@[k] == docs0[k] by {
                if k < idx as int {
                    assert(self.documents@[k] == docs0.remove(idx as int).insert(
                        idx as int,
                        self.documents@[idx as int],
                    )[k]);
                } else {
                    assert(self.documents@[k] == docs0.remove(idx as int).insert(
                        idx as int,
                        self.documents@[idx as int],
                    )[k]);
                }
            }
            assert(self.documents@.len() == docs0.len());
            assert forall|k: int| 0 <= k < self.documents@.len() implies (#[trigger] self
                .documents@[k]).wf() by {
                if k != idx as int {
                    assert(self.documents@[k] == docs0[k]);
                }
            }
        }
        Ok(())
    }

    /// The hover answer at a position: when the cursor stands inside the
    /// quoted key of a terminated translation call and the index knows
    /// the key, the rendered detail and the exact span of the quoted
    /// content. A uri that names no open document is reported.
    pub fn find_hover_key(&mut self, uri: &String, position: Position) -> (r: Result<
        Option<(String, Range)>,
        BackendError,
    >)
        requires
            old(self).wf(),
        ensures
            final(self).wf(),
            final(self).definitions == old(self).definitions,
            final(self).config == old(self).config,
            final(self).documents@.len() == old(self).documents@.len(),
            forall|k: int|
                0 <= k < old(self).documents@.len() ==> (#[trigger] final(self).documents@[k]).text
                    == old(self).documents@[k].text && final(self).documents@[k].uri == old(self).documents@[k].uri && final(self).documents@[k].language_id == old(self).documents@[k].language_id && final(self).documents@[k].version == old(self).documents@[k].version,
            match spec_find_doc_from(old(self).documents@, uri@, 0) {
                Some(i) => {
                    &&& r is Ok
                    &&& ({
                        let t = old(self).documents@[i].text@;
                        let p = spec_offset_at(
                            t,
                            position.line as int,
                            position.character as int,
                        );
                        if t.len() <= u32::MAX {
                            match spec_find_key(t, p) {
                                Some((j, k)) => match spec_detail(
                                    defs_of(old(self).definitions.files@, 0),
                                    t.subrange(j, k),
                                ) {
                                    Some(detail) => r->Ok_0 matches Some(h) && h.0@ == detail
                                        && h.1.start.line == spec_position_at(t, j).0
                                        && h.1.start.character == spec_position_at(t, j).1
                                        && h.1.end.line == spec_position_at(t, k).0
                                        && h.1.end.character == spec_position_at(t, k).1,
                                    None => r->Ok_0 is None,
                                },
                                None => r->Ok_0 is None,
                            }
                        } else {
                            r->Ok_0 is None
                        }
                    })
                },
                None => r == Err::<Option<(String, Range)>, BackendError>(
                    BackendError::DocumentNotFound,
                ),
            },
    {
        let idx = match self.find_document(uri) {
            Some(i) => i,
            None => {
                return Err(BackendError::DocumentNotFound);
            },
        };
        let ghost docs0 = self.documents@;
        let mut doc = self.documents.remove(idx);
        let ghost t = doc.text@;
        let n = doc.text.as_str().unicode_len();
        if n > u32::MAX as usize {
            self.documents.insert(idx, doc);
            proof {
                lemma_docs_restored(docs0, self.documents@, idx as int);
            }
            return Ok(None);
        }
        let pos_off = doc.offset_at(position);
        let result = match find_translation_key_by_position(&doc.text, &pos_off) {
            Some(km) => {
                match self.definitions.get_definition_detail_by_key(&km.text) {
                    Some(detail) => {
                        let start = doc.position_at(km.start as u32);
                        let end = doc.position_at(km.end as u32);
                        proof {
                            crate::string_helper::lemma_find_key_in_text(t, pos_off as int);
                        }
                        Some((detail, Range { start, end }))
                    },
                    None => None,
                }
            },
            None => None,
        };
        self.documents.insert(idx, doc);
        proof {
            lemma_docs_restored(docs0, self.documents@, idx as int);
        }
        Ok(result)
    }

    /// The completion span at a position: the span of the key being
    /// typed, as editor positions, when the cursor touches one. A uri
    /// that names no open document is reported.
    pub fn find_completion_range(&mut self, uri: &String, position: Position) -> (r: Result<
        Option<Range>,
        BackendError,
    >)
        requires
            old(self).wf(),
        ensures
            final(self).wf(),
            final(self).definitions == old(self).definitions,
            final(self).config == old(self).config,
            final(self).documents@.len() == old(self).documents@.len(),
            forall|k: int|
                0 <= k < old(self).documents@.len() ==> (#[trigger] final(self).documents@[k]).text
                    == old(self).documents@[k].text && final(self).documents@[k].uri == old(self).documents@[k].uri && final(self).documents@[k].language_id == old(self).documents@[k].language_id && final(self).documents@[k].version == old(self).documents@[k].version,
            match spec_find_doc_from(old(self).documents@, uri@, 0) {
                Some(i) => {
                    &&& r is Ok
                    &&& ({
                        let t = old(self).documents@[i].text@;
                        let p = spec_offset_at(
                            t,
                            position.line as int,
                            position.character as int,
                        );
                        if t.len() <= u32::MAX {
                            match spec_editing_range(t, p) {
                                Some((j, k)) => r->Ok_0 matches Some(range) && range.start.line
                                    == spec_position_at(t, j).0 && range.start.character
                                    == spec_position_at(t, j).1 && range.end.line
                                    == spec_position_at(t, k).0 && range.end.character
                                    == spec_position_at(t, k).1,
                                None => r->Ok_0 is None,
                            }
                        } else {
                            r->Ok_0 is None
                        }
                    })
                },
                None => r == Err::<Option<Range>, BackendError>(BackendError::DocumentNotFound),
            },
    {
        let idx = match self.find_document(uri) {
            Some(i) => i,
            None => {
                return Err(BackendError::DocumentNotFound);
            },
        };
        let ghost docs0 = self.documents@;
        let mut doc = self.documents.remove(idx);
        let ghost t = doc.text@;
        let n = doc.text.as_str().unicode_len();
        if n > u32::MAX as usize {
            self.documents.insert(idx, doc);
            proof {
                lemma_docs_restored(docs0, self.documents@, idx as int);
            }
            return Ok(None);
        }
        let pos_off = doc.offset_at(position);
        let result = match get_editing_range(&doc.text, &pos_off) {
            Some(range) => {
                proof {
                    crate::string_helper::lemma_editing_range_in_text(t, pos_off as int);
                }
                let start = doc.position_at(range.start as u32);
                let end = doc.position_at(range.end as u32);
                Some(Range { start, end })
            },
            None => None,
        };
        self.documents.insert(idx, doc);
        proof {
            lemma_docs_restored(docs0, self.documents@, idx as int);
        }
        Ok(result)
    }

    /// The completion candidates: every distinct identifier the index
    /// knows, in first-indexed order.
    pub fn list_completion_identifiers(&self) -> (r: Vec<String>)
        ensures
            r@.map_values(|s: String| s@) == spec_identifiers(defs_of(self.definitions.files@, 0)),
    {
        self.definitions.list_identifiers()
    }

    /// Publish one re-indexed translation file: on success the file's
    /// slice of the index holds exactly the definitions the parse
    /// emitted, each stamped with the file and the language its name
    /// encodes; a structurally invalid file is reported and its slice is
    /// cleared, so no stale or partial definitions survive.
    pub fn read_translation(
        &mut self,
        path: String,
        file_name: &String,
        text: &String,
        tree: &SyntaxTree,
        matches: &Vec<QueryMatch>,
    ) -> (r: Result<(), InvalidTranslationFileStructure>)
        requires
            old(self).wf(),
            tree_wf(tree.nodes@, text@.len() as int),
            captures_wf(tree.nodes@, matches@),
        ensures
            final(self).wf(),
            final(self).documents == old(self).documents,
            final(self).config == old(self).config,
            (r is Ok) == (spec_extract(tree.nodes@, text@, matches@) is Some),
            0 <= slice_slot(old(self).definitions.files@, path@) < final(self).definitions.files@.len(),
            final(self).definitions.files@[slice_slot(old(self).definitions.files@, path@)].file_path@
                == path@,
            final(self).definitions.files@ == (match crate::index::spec_find_slice_from(
                old(self).definitions.files@,
                path@,
                0,
            ) {
                Some(i) => old(self).definitions.files@.update(
                    i,
                    final(self).definitions.files@[i],
                ),
                None => old(self).definitions.files@.push(
                    final(self).definitions.files@[old(self).definitions.files@.len() as int],
                ),
            }),
            r is Err ==> final(self).definitions.files@[slice_slot(
                old(self).definitions.files@,
                path@,
            )].definitions@.len() == 0,
            r is Ok ==> ({
                let pairs = spec_extract(tree.nodes@, text@, matches@)->0;
                let defs = final(self).definitions.files@[slice_slot(
                    old(self).definitions.files@,
                    path@,
                )].definitions@;
                &&& kv_views(defs) == pairs
                &&& forall|k: int|
                    0 <= k < defs.len() ==> decorated_ok(old(self).config, #[trigger] defs[k]) && (
                    defs[k].file matches Some(tf) && tf.path@ == path@ && (old(
                        self,
                    ).config.file_name.details is None ==> tf.language is None) && (tf.language
                        matches Some(l) ==> is_substring_of(l@, file_name@)))
                &&& forall|k1: int, k2: int|
                    0 <= k1 < defs.len() && 0 <= k2 < defs.len() ==> file_language_view(
                        #[trigger] defs[k1],
                    ) == file_language_view(#[trigger] defs[k2])
            }),
    {
        let ghost files0 = self.definitions.files@;
        let parsed = parse_translation_structure(text, &self.config, tree, matches);
        match parsed {
            Some(mut defs) => {
                // The language this file's name encodes, for every
                // definition of the file.
                let language = match &self.config.file_name.details {
                    Some(re) => regex_capture_named(re, file_name.as_str(), "language"),
                    None => None,
                };
                proof {
                    assert(self.config.file_name.details is None ==> language is None);
                }
                let ghost raw = defs@;
                let mut stamped: Vec<Definition> = Vec::new();
                let mut i: usize = 0;
                let n = defs.len();
                proof {
                    assert(kv_views(stamped@) =~= Seq::<(Seq<char>, Seq<char>)>::empty());
                    assert(kv_views(raw).subrange(0, 0) =~= Seq::<(Seq<char>, Seq<char>)>::empty());
                }
                while i < n
                    invariant
                        0 <= i <= n,
                        n == defs@.len(),
                        defs@ == raw,
                        kv_views(stamped@) == kv_views(raw).subrange(0, i as int),
                        forall|k: int|
                            0 <= k < raw.len() ==> decorated_ok(self.config, #[trigger] raw[k]),
                        forall|k: int|
                            0 <= k < stamped@.len() ==> decorated_ok(
                                self.config,
                                #[trigger] stamped@[k],
                            ) && (stamped@[k].file matches Some(tf) && tf.path@ == path@ && (
                            self.config.file_name.details is None ==> tf.language is None) && (
                            tf.language matches Some(l) ==> is_substring_of(l@, file_name@))),
                        forall|k: int|
                            0 <= k < stamped@.len() ==> file_language_view(#[trigger] stamped@[k])
                                == (match language {
                                Some(l) => Some(l@),
                                None => None,
                            }),
                        self.config == old(self).config,
                        self.config.file_name.details is None ==> language is None,
                        language matches Some(l) ==> is_substring_of(l@, file_name@),
                    decreases n - i,
                {
                    broadcast use Seq::lemma_push_map_commute;

                    let d = &defs[i];
                    let lang_copy = match &language {
                        Some(l) => Some(l.clone()),
                        None => None,
                    };
                    let nd = Definition {
                        key: d.key.clone(),
                        cleaned_key: match &d.cleaned_key {
                            Some(ck) => Some(ck.clone()),
                            None => None,
                        },
                        file: Some(TranslationFile { path: path.clone(), language: lang_copy }),
                        extra_data: clone_pairs(&d.extra_data),
                        value: d.value.clone(),
                    };
                    let ghost prev = stamped@;
                    proof {
                        assert(nd.key@ == raw[i as int].key@);
                        assert(nd.value@ == raw[i as int].value@);
                        assert(nd.cleaned_key is Some <==> raw[i as int].cleaned_key is Some);
                        assert(nd.cleaned_key matches Some(ck) ==> ck@ == raw[
                            i as int
                        ].cleaned_key->0@);
                        assert(nd.extra_view() == raw[i as int].extra_view());
                        assert(decorated_ok(self.config, nd));
                        assert(nd.file matches Some(tf) && tf.path@ == path@);
                        assert(file_language_view(nd) == (match language {
                            Some(l) => Some(l@),
                            None => None,
                        }));
                    }
                    stamped.push(nd);
                    proof {
                        assert(stamped@ == prev.push(stamped@[prev.len() as int]));
                        assert(kv_views(stamped@) =~= kv_views(prev).push(
                            (raw[i as int].key@, raw[i as int].value@),
                        ));
                        assert(kv_views(raw).subrange(0, i as int + 1) =~= kv_views(raw).subrange(
                            0,
                            i as int,
                        ).push(kv_views(raw)[i as int]));
                    }
                    i += 1;
                }
                proof {
                    assert(kv_views(raw).subrange(0, n as int) =~= kv_views(raw));
                }
                let path2 = path.clone();
                let ghost pathv = path@;
                let ghost raw_stamped = stamped@;
                let ghost s = crate::index::FileSlice { file_path: path2, definitions: stamped };
                self.definitions.replace_for_file(path2, stamped);
                proof {
                    lemma_replace_shape(files0, self.definitions.files@, pathv, s);
                    let files0b = old(self).definitions.files@;
                    let files1b = self.definitions.files@;
                    let slotb = match crate::index::spec_find_slice_from(files0b, path@, 0) {
                        Some(i2) => i2,
                        None => files0b.len() as int,
                    };
                    assert(files1b[slotb] == s);
                    assert(files1b[slotb].definitions@ == raw_stamped);
                    assert(files1b == (match crate::index::spec_find_slice_from(
                        files0b,
                        path@,
                        0,
                    ) {
                        Some(i2) => files0b.update(i2, files1b[i2]),
                        None => files0b.push(files1b[files0b.len() as int]),
                    }));
                    assert(forall|k: int|
                        0 <= k < files1b[slotb].definitions@.len() ==> decorated_ok(
                            old(self).config,
                            #[trigger] files1b[slotb].definitions@[k],
                        ) && (files1b[slotb].definitions@[k].file matches Some(tf) && tf.path@
                            == path@));
                }
                Ok(())
            },
            None => {
                let empty: Vec<Definition> = Vec::new();
                let path2 = path.clone();
                let ghost pathv = path@;
                let ghost s = crate::index::FileSlice { file_path: path2, definitions: empty };
                self.definitions.replace_for_file(path2, empty);
                proof {
                    lemma_replace_shape(files0, self.definitions.files@, pathv, s);
                    let files0b = old(self).definitions.files@;
                    let files1b = self.definitions.files@;
                    let slotb = match crate::index::spec_find_slice_from(files0b, path@, 0) {
                        Some(i2) => i2,
                        None => files0b.len() as int,
                    };
                    assert(files1b[slotb] == s);
                    assert(files1b[slotb].definitions@.len() == 0);
                    assert(files1b[slotb].file_path@ == path@);
                    assert(files1b == (match crate::index::spec_find_slice_from(
                        files0b,
                        path@,
                        0,
                    ) {
                        Some(i2) => files0b.update(i2, files1b[i2]),
                        None => files0b.push(files1b[files0b.len() as int]),
                    }));
                }
                Err(InvalidTranslationFileStructure {})
            },
        }
    }
}

/// Copies an association list of texts.
fn clone_pairs(v: &Vec<(String, String)>) -> (r: Vec<(String, String)>)
    ensures
        r@.map_values(|p: (String, String)| (p.0@, p.1@)) == v@.map_values(
            |p: (String, String)| (p.0@, p.1@),
        ),
        r@.len() == v@.len(),
{
    broadcast use Seq::lemma_push_map_commute;

    let mut out: Vec<(String, String)> = Vec::new();
    let n = v.len();
    let mut i: usize = 0;
    proof {
        assert(out@.map_values(|p: (String, String)| (p.0@, p.1@)) =~= v@.map_values(
            |p: (String, String)| (p.0@, p.1@),
        ).subrange(0, 0));
    }
    while i < n
        invariant
            0 <= i <= n,
            n == v@.len(),
            out@.len() == i,
            out@.map_values(|p: (String, String)| (p.0@, p.1@)) == v@.map_values(
                |p: (String, String)| (p.0@, p.1@),
            ).subrange(0, i as int),
        decreases n - i,
    {
        let ghost prev = out@;
        out.push((v[i].0.clone(), v[i].1.clone()));
        proof {
            assert(out@ == prev.push(out@[prev.len() as int]));
            assert(out@.map_values(|p: (String, String)| (p.0@, p.1@)) =~= prev.map_values(
                |p: (String, String)| (p.0@, p.1@),
            ).push((v@[i as int].0@, v@[i as int].1@)));
            assert(v@.map_values(|p: (String, String)| (p.0@, p.1@)).subrange(0, i as int + 1)
                =~= v@.map_values(|p: (String, String)| (p.0@, p.1@)).subrange(0, i as int).push(
                v@.map_values(|p: (String, String)| (p.0@, p.1@))[i as int],
            ));
        }
        i += 1;
    }
    proof {
        assert(v@.map_values(|p: (String, String)| (p.0@, p.1@)).subrange(0, n as int)
            =~= v@.map_values(|p: (String, String)| (p.0@, p.1@)));
    }
    out
}

/// Removing a document and putting it back restores the sequence but for
/// that one position.
proof fn lemma_docs_restored(
    docs0: Seq<FullTextDocument>,
    docs1: Seq<FullTextDocument>,
    i: int,
)
    requires
        0 <= i < docs0.len(),
        docs1 == docs0.remove(i).insert(i, docs1[i]),
        docs1.len() == docs0.len(),
    ensures
        forall|k: int| 0 <= k < docs0.len() && k != i ==> #[trigger] docs1[k] == docs0[k],
{
    assert forall|k: int| 0 <= k < docs0.len() && k != i implies #[trigger] docs1[k]
        == docs0[k] by {
        assert(docs1[k] == docs0.remove(i).insert(i, docs1[i])[k]);
    }
}

/// The shape replace_for_file leaves: one slot for the path, every other
/// slice untouched.
proof fn lemma_replace_shape(
    files0: Seq<crate::index::FileSlice>,
    files1: Seq<crate::index::FileSlice>,
    path: Seq<char>,
    s: crate::index::FileSlice,
)
    requires
        s.file_path@ == path,
        files1 == (match crate::index::spec_find_slice_from(files0, path, 0) {
            Some(i) => files0.update(i, s),
            None => files0.push(s),
        }),
    ensures
        ({
            let slot = match crate::index::spec_find_slice_from(files0, path, 0) {
                Some(i) => i,
                None => files0.len() as int,
            };
            &&& 0 <= slot < files1.len()
            &&& files1[slot] == s
            &&& files1[slot].file_path@ == path
            &&& forall|k: int|
                0 <= k < files1.len() && k != slot ==> k < files0.len() && #[trigger] files1[k]
                    == files0[k]
        }),
{
    crate::index::lemma_find_slice_in_range(files0, path, 0);
}

} // verus!
