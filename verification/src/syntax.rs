//! The shape of a parsed translation file as the indexer consumes it: a
//! flat arena of syntax nodes, in depth-first order, together with the
//! captures a structural query produced over it. The grammar engine that
//! produces trees and captures lives outside the library; the walker here
//! is grammar-agnostic and reads only node kinds, spans and links.
use vstd::prelude::*;
use crate::textutil::{dec_string, spec_dec};

verus! {

broadcast use vstd::seq::group_seq_axioms;

/// The node kinds the walker distinguishes. Mapping entries and sequence
/// items drive path reconstruction; the string kinds locate the readable
/// content of a key; everything else is carried as `Other`.
#[derive(Clone, Copy, PartialEq, Eq, Structural, Debug)]
pub enum NodeKind {
    /// A mapping entry of a brace-style grammar.
    Pair,
    /// A mapping entry of a block-style grammar.
    BlockMappingPair,
    /// A sequence item of a block-style grammar.
    BlockSequenceItem,
    /// The readable content inside a quoted string.
    StringContent,
    /// A bare string value.
    StringScalar,
    /// A single-quoted string, quotes included in its span.
    SingleQuoteScalar,
    /// A double-quoted string, quotes included in its span.
    DoubleQuoteScalar,
    /// A bare scalar that may wrap a string node.
    PlainScalar,
    /// Any other node kind.
    Other,
}

pub open spec fn is_mapping_entry(k: NodeKind) -> bool {
    k == NodeKind::Pair || k == NodeKind::BlockMappingPair
}

pub open spec fn is_sequence_item(k: NodeKind) -> bool {
    k == NodeKind::BlockSequenceItem
}

pub open spec fn is_string_content_kind(k: NodeKind) -> bool {
    k == NodeKind::StringContent || k == NodeKind::StringScalar || k == NodeKind::SingleQuoteScalar
        || k == NodeKind::DoubleQuoteScalar
}

pub open spec fn is_quoted_scalar(k: NodeKind) -> bool {
    k == NodeKind::SingleQuoteScalar || k == NodeKind::DoubleQuoteScalar
}

/// One syntax node: its kind, its character span in the file text, its
/// parent, its children in document order, and the child holding the key
/// of a mapping entry.
pub struct SyntaxNode {
    pub kind: NodeKind,
    pub start: usize,
    pub end: usize,
    pub parent: Option<usize>,
    pub children: Vec<usize>,
    pub key_child: Option<usize>,
}

/// A parsed file: nodes in depth-first order, the root at index 0, every
/// child after its parent.
pub struct SyntaxTree {
    pub nodes: Vec<SyntaxNode>,
}

/// The string-content node found by searching the children of `node` in
/// order, looking through bare scalars, starting at child position `ci`.
pub open spec fn sc_search(t: Seq<SyntaxNode>, node: int, ci: int) -> Option<int>
    decreases t.len() - node, t[node].children@.len() - ci,
{
    if !(0 <= node < t.len()) || ci < 0 || ci >= t[node].children@.len() {
        None
    } else {
        let c = t[node].children@[ci] as int;
        if !(node < c < t.len()) {
            None
        } else if is_string_content_kind(t[c].kind) {
            Some(c)
        } else if t[c].kind == NodeKind::PlainScalar && sc_search(t, c, 0) is Some {
            sc_search(t, c, 0)
        } else {
            sc_search(t, node, ci + 1)
        }
    }
}

/// The string-content node under a string-valued node, if any.
pub open spec fn string_content_of(t: Seq<SyntaxNode>, node: int) -> Option<int> {
    sc_search(t, node, 0)
}

/// Structural well-formedness of the arena: links point forward for
/// children, backwards for parents, every non-root node hangs under its
/// parent, and every mapping entry has a key that resolves to readable
/// string content.
pub open spec fn struct_wf(t: Seq<SyntaxNode>) -> bool {
    &&& t.len() >= 1
    &&& forall|i: int, ci: int|
        0 <= i < t.len() && 0 <= ci < t[i].children@.len() ==> i < #[trigger] t[i].children@[ci]
            < t.len()
    &&& forall|i: int|
        0 < i < t.len() ==> ((#[trigger] t[i].parent) matches Some(p) && 0 <= p < i)
    &&& t[0].parent is None
    &&& forall|i: int|
        #![trigger t[i].parent]
        0 < i < t.len() ==> exists|ci: int|
            0 <= ci < t[t[i].parent->0 as int].children@.len() && t[t[i].parent->0 as int].children@[ci] == i
    &&& forall|i: int|
        0 <= i < t.len() ==> ((#[trigger] t[i].key_child) matches Some(k) ==> i < k < t.len())
    &&& forall|i: int|
        0 <= i < t.len() && is_mapping_entry(#[trigger] t[i].kind) ==> t[i].key_child is Some
            && string_content_of(t, t[i].key_child->0 as int) is Some
}

/// The spans of all nodes lie within a text of length `text_len`.
pub open spec fn spans_wf(t: Seq<SyntaxNode>, text_len: int) -> bool {
    forall|i: int|
        0 <= i < t.len() ==> #[trigger] t[i].start <= t[i].end && t[i].end <= text_len
}

pub open spec fn tree_wf(t: Seq<SyntaxNode>, text_len: int) -> bool {
    struct_wf(t) && spans_wf(t, text_len)
}

/// The position of `node` among the children of `p`, searched from `ci`.
pub open spec fn child_search(t: Seq<SyntaxNode>, p: int, node: int, ci: int) -> Option<int>
    decreases t[p].children@.len() - ci,
{
    if !(0 <= p < t.len()) || ci < 0 || ci >= t[p].children@.len() {
        None
    } else if t[p].children@[ci] == node {
        Some(ci)
    } else {
        child_search(t, p, node, ci + 1)
    }
}

/// The ordinal of a sequence item: its position among all of its parent's
/// children, punctuation and sibling values alike, in document order.
pub open spec fn spec_array_index_of(t: Seq<SyntaxNode>, node: int) -> Option<int> {
    if !(0 <= node < t.len()) {
        None
    } else {
        match t[node].parent {
            Some(p) => child_search(t, p as int, node, 0),
            None => None,
        }
    }
}

/// The readable key text of a string-content node: its span, shorn of the
/// surrounding quotes when the node's kind includes them.
pub open spec fn key_text(t: Seq<SyntaxNode>, text: Seq<char>, sn: int) -> Seq<char> {
    if is_quoted_scalar(t[sn].kind) && t[sn].end - t[sn].start >= 2 {
        text.subrange(t[sn].start + 1, t[sn].end - 1)
    } else {
        text.subrange(t[sn].start as int, t[sn].end as int)
    }
}

/// The path contribution of one node: `.key` for a mapping entry, `[i]`
/// for a sequence item, nothing otherwise.
pub open spec fn path_segment(t: Seq<SyntaxNode>, text: Seq<char>, i: int) -> Seq<char> {
    if is_mapping_entry(t[i].kind) {
        match t[i].key_child {
            Some(kc) => match string_content_of(t, kc as int) {
                Some(sn) => seq!['.'] + key_text(t, text, sn),
                None => Seq::empty(),
            },
            None => Seq::empty(),
        }
    } else if is_sequence_item(t[i].kind) {
        match spec_array_index_of(t, i) {
            Some(ix) => seq!['['] + spec_dec(ix) + seq![']'],
            None => Seq::empty(),
        }
    } else {
        Seq::empty()
    }
}

/// The dotted, bracket-indexed path of a node: the segments of its
/// ancestors, outermost first, ending with its own.
pub open spec fn path_of(t: Seq<SyntaxNode>, text: Seq<char>, i: int) -> Seq<char>
    decreases i,
{
    if !(0 <= i < t.len()) {
        Seq::empty()
    } else {
        let seg = path_segment(t, text, i);
        match t[i].parent {
            Some(p) => if 0 <= p < i {
                path_of(t, text, p as int) + seg
            } else {
                seg
            },
            None => seg,
        }
    }
}

/// The path with its leading dot removed: the root level has no
/// separator.
pub open spec fn stripped_path_of(t: Seq<SyntaxNode>, text: Seq<char>, i: int) -> Seq<char> {
    let p = path_of(t, text, i);
    if p.len() > 0 && p[0] == '.' {
        p.subrange(1, p.len() as int)
    } else {
        p
    }
}

impl SyntaxTree {
    pub open spec fn wf(&self, text_len: int) -> bool {
        tree_wf(self.nodes@, text_len)
    }
}

fn sc_search_exec(tree: &SyntaxTree, node: usize, ci: usize) -> (r: Option<usize>)
    requires
        struct_wf(tree.nodes@),
        node < tree.nodes@.len(),
    ensures
        (r is Some) == (sc_search(tree.nodes@, node as int, ci as int) is Some),
        r is Some ==> r->0 as int == sc_search(tree.nodes@, node as int, ci as int)->0 && r->0
            < tree.nodes@.len(),
    decreases tree.nodes@.len() - node, tree.nodes@[node as int].children@.len() - ci,
{
    let ghost t = tree.nodes@;
    if ci >= tree.nodes[node].children.len() {
        None
    } else {
        let c = tree.nodes[node].children[ci];
        let kind = tree.nodes[c].kind;
        if kind == NodeKind::StringContent || kind == NodeKind::StringScalar || kind
            == NodeKind::SingleQuoteScalar || kind == NodeKind::DoubleQuoteScalar {
            Some(c)
        } else if kind == NodeKind::PlainScalar {
            let deeper = sc_search_exec(tree, c, 0);
            match deeper {
                Some(sn) => Some(sn),
                None => sc_search_exec(tree, node, ci + 1),
            }
        } else {
            sc_search_exec(tree, node, ci + 1)
        }
    }
}

/// The node holding the readable content of a string-valued node: the
/// first string-kind child, looked for through bare scalars.
pub fn get_string_content_from_string(tree: &SyntaxTree, node: usize) -> (r: Option<usize>)
    requires
        struct_wf(tree.nodes@),
        node < tree.nodes@.len(),
    ensures
        (r is Some) == (string_content_of(tree.nodes@, node as int) is Some),
        r is Some ==> r->0 as int == string_content_of(tree.nodes@, node as int)->0 && r->0
            < tree.nodes@.len(),
{
    sc_search_exec(tree, node, 0)
}

/// The position of a node among all of its parent's children, in document
/// order.
pub fn get_array_index_of_node(tree: &SyntaxTree, node: usize) -> (r: Option<usize>)
    requires
        struct_wf(tree.nodes@),
        node < tree.nodes@.len(),
    ensures
        (r is Some) == (spec_array_index_of(tree.nodes@, node as int) is Some),
        r is Some ==> r->0 as int == spec_array_index_of(tree.nodes@, node as int)->0,
{
    let ghost t = tree.nodes@;
    let p = match tree.nodes[node].parent {
        Some(p) => p,
        None => {
            return None;
        },
    };
    let n_children = tree.nodes[p].children.len();
    let mut ci: usize = 0;
    while ci < n_children
        invariant
            0 <= ci <= n_children,
            t == tree.nodes@,
            struct_wf(t),
            node < t.len(),
            p < t.len(),
            t[node as int].parent == Some(p),
            n_children == t[p as int].children@.len(),
            child_search(t, p as int, node as int, 0) == child_search(
                t,
                p as int,
                node as int,
                ci as int,
            ),
        decreases n_children - ci,
    {
        if tree.nodes[p].children[ci] == node {
            return Some(ci);
        }
        ci += 1;
    }
    None
}

/// The `.key` or `[i]` contribution of one node, as a string.
fn segment_string(tree: &SyntaxTree, text: &String, i: usize) -> (r: String)
    requires
        tree_wf(tree.nodes@, text@.len() as int),
        i < tree.nodes@.len(),
    ensures
        r@ == path_segment(tree.nodes@, text@, i as int),
{
    let ghost t = tree.nodes@;
    let kind = tree.nodes[i].kind;
    if kind == NodeKind::Pair || kind == NodeKind::BlockMappingPair {
        let kc = match tree.nodes[i].key_child {
            Some(k) => k,
            None => unreached(),
        };
        let sn = match get_string_content_from_string(tree, kc) {
            Some(sn) => sn,
            None => unreached(),
        };
        let snode_kind = tree.nodes[sn].kind;
        let quoted = (snode_kind == NodeKind::SingleQuoteScalar || snode_kind
            == NodeKind::DoubleQuoteScalar) && tree.nodes[sn].end - tree.nodes[sn].start >= 2;
        let lo = if quoted {
            tree.nodes[sn].start + 1
        } else {
            tree.nodes[sn].start
        };
        let hi = if quoted {
            tree.nodes[sn].end - 1
        } else {
            tree.nodes[sn].end
        };
        let key = text.as_str().substring_char(lo, hi);
        proof {
            reveal_strlit(".");
        }
        let r = String::from_str(".").concat(key);
        proof {
            assert(r@ =~= seq!['.'] + key_text(t, text@, sn as int));
        }
        r
    } else if kind == NodeKind::BlockSequenceItem {
        match get_array_index_of_node(tree, i) {
            Some(ix) => {
                proof {
                    reveal_strlit("[");
                    reveal_strlit("]");
                }
                let r = String::from_str("[").concat(dec_string(ix).as_str()).concat("]");
                proof {
                    assert(r@ =~= seq!['['] + spec_dec(ix as int) + seq![']']);
                }
                r
            },
            None => String::new(),
        }
    } else {
        String::new()
    }
}

/// The dotted, bracket-indexed path that addresses a node: the mapping
/// keys and sequence ordinals of its ancestors, outermost first, without
/// the leading separator.
pub fn get_path_for_node(tree: &SyntaxTree, text: &String, node: usize) -> (r: String)
    requires
        tree_wf(tree.nodes@, text@.len() as int),
        node < tree.nodes@.len(),
    ensures
        r@ == stripped_path_of(tree.nodes@, text@, node as int),
{
    let ghost t = tree.nodes@;
    let mut path = String::new();
    let mut cur = node;
    loop
        invariant_except_break
            cur < t.len(),
            t == tree.nodes@,
            tree_wf(t, text@.len() as int),
            path_of(t, text@, node as int) == path_of(t, text@, cur as int) + path@,
        ensures
            path@ == path_of(t, text@, node as int),
        decreases cur,
    {
        let seg = segment_string(tree, text, cur);
        let ghost old_path = path@;
        let ghost old_cur = cur as int;
        path = seg.concat(path.as_str());
        match tree.nodes[cur].parent {
            Some(p) => {
                proof {
                    assert(0 < old_cur);
                    assert(path_of(t, text@, old_cur) == path_of(t, text@, p as int)
                        + path_segment(t, text@, old_cur));
                    assert((path_of(t, text@, p as int) + path_segment(t, text@, old_cur))
                        + old_path =~= path_of(t, text@, p as int) + (path_segment(
                        t,
                        text@,
                        old_cur,
                    ) + old_path));
                }
                cur = p;
            },
            None => {
                proof {
                    assert(path_of(t, text@, old_cur) == path_segment(t, text@, old_cur));
                }
                break ;
            },
        }
    }
    let n = path.as_str().unicode_len();
    if n > 0 && path.as_str().get_char(0) == '.' {
        let r = String::from_str(path.as_str().substring_char(1, n));
        r
    } else {
        path
    }
}

} // verus!
