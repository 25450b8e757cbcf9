//! A textual locator for translation keys: finds the quoted key of a
//! translation call that encloses a given character offset, either fully
//! terminated (for hover) or still being typed (for completion).
use vstd::prelude::*;

verus! {

broadcast use vstd::seq::group_seq_axioms;

/// The quote characters that may open or close a translation key.
pub open spec fn is_quote(c: char) -> bool {
    c == '\'' || c == '"' || c == '`'
}

/// The length of a translation-call marker starting at `i`: one of the
/// recognized call openers followed directly by an opening quote; 0 when
/// none starts here. At most one marker can start at a position.
pub open spec fn begin_marker_len(t: Seq<char>, i: int) -> int {
    if 0 <= i && i + 11 <= t.len() && t[i] == 't' && t[i + 1] == 'r' && t[i + 2] == 'a' && t[i + 3]
        == 'n' && t[i + 4] == 's' && t[i + 5] == 'l' && t[i + 6] == 'a' && t[i + 7] == 't' && t[i
        + 8] == 'e' && t[i + 9] == '(' && is_quote(t[i + 10]) {
        11
    } else if 0 <= i && i + 4 <= t.len() && (t[i] == ' ' || t[i] == '(' || t[i] == '{') && t[i + 1]
        == 't' && t[i + 2] == '(' && is_quote(t[i + 3]) {
        4
    } else {
        0
    }
}

/// The first closing quote at or after `m`, unless a line break or the end
/// of the text comes first.
pub open spec fn quote_scan(t: Seq<char>, m: int) -> Option<int>
    decreases t.len() - m,
{
    if m < 0 || m >= t.len() {
        None
    } else if is_quote(t[m]) {
        Some(m)
    } else if t[m] == '\n' {
        None
    } else {
        quote_scan(t, m + 1)
    }
}

pub proof fn lemma_quote_scan_bounds(t: Seq<char>, m: int)
    ensures
        quote_scan(t, m) is Some ==> m <= quote_scan(t, m)->0 < t.len(),
    decreases t.len() - m,
{
    if m < 0 || m >= t.len() {
    } else {
        lemma_quote_scan_bounds(t, m + 1);
    }
}

/// The first index at or after `m` that ends an in-progress key: a quote, a
/// line break, or the end of the text.
pub open spec fn edit_scan(t: Seq<char>, m: int) -> int
    decreases t.len() - m,
{
    if m >= t.len() {
        t.len() as int
    } else if m < 0 {
        0
    } else if is_quote(t[m]) || t[m] == '\n' {
        m
    } else {
        edit_scan(t, m + 1)
    }
}

pub proof fn lemma_edit_scan_bounds(t: Seq<char>, m: int)
    requires
        0 <= m <= t.len(),
    ensures
        m <= edit_scan(t, m) <= t.len(),
    decreases t.len() - m,
{
    if m >= t.len() {
    } else if is_quote(t[m]) || t[m] == '\n' {
    } else {
        lemma_edit_scan_bounds(t, m + 1);
    }
}

/// The key span of the first terminated translation call at or after scan
/// position `i` whose key encloses `pos`; matches are taken left to right
/// and never overlap, and a key has at least one character and no line
/// break.
pub open spec fn find_key_from(t: Seq<char>, i: int, pos: int) -> Option<(int, int)>
    decreases t.len() - i,
    via find_key_from_decreases
{
    if i < 0 || i >= t.len() {
        None
    } else if begin_marker_len(t, i) > 0 {
        let j = i + begin_marker_len(t, i);
        if j < t.len() && t[j] != '\n' {
            match quote_scan(t, j + 1) {
                Some(k) => if j <= pos < k {
                    Some((j, k))
                } else {
                    find_key_from(t, k + 1, pos)
                },
                None => find_key_from(t, i + 1, pos),
            }
        } else {
            find_key_from(t, i + 1, pos)
        }
    } else {
        find_key_from(t, i + 1, pos)
    }
}

#[via_fn]
proof fn find_key_from_decreases(t: Seq<char>, i: int, pos: int) {
    if 0 <= i < t.len() && begin_marker_len(t, i) > 0 {
        let j = i + begin_marker_len(t, i);
        assert(j <= t.len());
        lemma_quote_scan_bounds(t, j + 1);
    }
}

/// The span of the first key-in-progress at or after scan position `i`
/// whose span encloses `pos` or touches it at either end; the span may be
/// empty and may be terminated by a line break or the end of the text.
pub open spec fn find_edit_from(t: Seq<char>, i: int, pos: int) -> Option<(int, int)>
    decreases t.len() + 1 - i,
    via find_edit_from_decreases
{
    if i < 0 || i >= t.len() {
        None
    } else if begin_marker_len(t, i) > 0 {
        let j = i + begin_marker_len(t, i);
        let k = edit_scan(t, j);
        if j <= pos <= k {
            Some((j, k))
        } else {
            find_edit_from(t, k + 1, pos)
        }
    } else {
        find_edit_from(t, i + 1, pos)
    }
}

#[via_fn]
proof fn find_edit_from_decreases(t: Seq<char>, i: int, pos: int) {
    if 0 <= i < t.len() && begin_marker_len(t, i) > 0 {
        let j = i + begin_marker_len(t, i);
        assert(j <= t.len());
        lemma_edit_scan_bounds(t, j);
    }
}

/// The key span enclosing `pos`, if a terminated translation call spans it.
pub open spec fn spec_find_key(t: Seq<char>, pos: int) -> Option<(int, int)> {
    find_key_from(t, 0, pos)
}

/// The span of the key being typed at `pos`, if any.
pub open spec fn spec_editing_range(t: Seq<char>, pos: int) -> Option<(int, int)> {
    find_edit_from(t, 0, pos)
}

/// A located translation key: its character span in the text, and its text.
pub struct KeyMatch {
    pub start: usize,
    pub end: usize,
    pub text: String,
}

impl KeyMatch {
    /// The key itself.
    pub fn as_str(&self) -> (r: &str)
        ensures
            r@ == self.text@,
    {
        self.text.as_str()
    }
}

fn is_quote_char(c: char) -> (r: bool)
    ensures
        r == is_quote(c),
{
    c == '\'' || c == '"' || c == '`'
}

/// The length of the translation-call marker starting at `i`, or 0.
fn begin_len_at(s: &str, i: usize, n: usize) -> (r: usize)
    requires
        i < n,
        n == s@.len(),
    ensures
        r as int == begin_marker_len(s@, i as int),
        r > 0 ==> i + r <= n,
{
    if n - i >= 11 && s.get_char(i) == 't' && s.get_char(i + 1) == 'r' && s.get_char(i + 2) == 'a'
        && s.get_char(i + 3) == 'n' && s.get_char(i + 4) == 's' && s.get_char(i + 5) == 'l'
        && s.get_char(i + 6) == 'a' && s.get_char(i + 7) == 't' && s.get_char(i + 8) == 'e'
        && s.get_char(i + 9) == '(' && is_quote_char(s.get_char(i + 10)) {
        11
    } else if n - i >= 4 && (s.get_char(i) == ' ' || s.get_char(i) == '(' || s.get_char(i) == '{')
        && s.get_char(i + 1) == 't' && s.get_char(i + 2) == '(' && is_quote_char(
        s.get_char(i + 3),
    ) {
        4
    } else {
        0
    }
}

/// The first closing quote at or after `m0`, unless a line break or the end
/// of the text comes first.
fn scan_quote(s: &str, m0: usize, n: usize) -> (r: Option<usize>)
    requires
        m0 <= n,
        n == s@.len(),
    ensures
        (r is Some) == (quote_scan(s@, m0 as int) is Some),
        r is Some ==> r->0 as int == quote_scan(s@, m0 as int)->0,
{
    let mut m = m0;
    while m < n
        invariant
            m0 <= m <= n,
            n == s@.len(),
            quote_scan(s@, m0 as int) == quote_scan(s@, m as int),
        decreases n - m,
    {
        let c = s.get_char(m);
        if c == '\'' || c == '"' || c == '`' {
            return Some(m);
        }
        if c == '\n' {
            return None;
        }
        m += 1;
    }
    None
}

/// The first index at or after `m0` holding a quote or a line break, or the
/// end of the text.
fn scan_edit_end(s: &str, m0: usize, n: usize) -> (r: usize)
    requires
        m0 <= n,
        n == s@.len(),
    ensures
        r as int == edit_scan(s@, m0 as int),
        m0 <= r <= n,
{
    let mut m = m0;
    while m < n
        invariant
            m0 <= m <= n,
            n == s@.len(),
            edit_scan(s@, m0 as int) == edit_scan(s@, m as int),
        decreases n - m,
    {
        let c = s.get_char(m);
        if c == '\'' || c == '"' || c == '`' || c == '\n' {
            return m;
        }
        m += 1;
    }
    n
}

/// Finds the terminated translation key whose quoted content spans `pos`:
/// the earliest call marker whose key holds the offset, the key text
/// without its quotes, and its character span.
pub fn find_translation_key_by_position(text: &String, pos: &usize) -> (r: Option<KeyMatch>)
    ensures
        (r is Some) == (spec_find_key(text@, *pos as int) is Some),
        r is Some ==> {
            let (j, k) = spec_find_key(text@, *pos as int)->0;
            r->0.start == j && r->0.end == k && r->0.text@ == text@.subrange(j, k)
        },
{
    let s = text.as_str();
    let n = s.unicode_len();
    let p = *pos;
    let mut i: usize = 0;
    while i < n
        invariant
            0 <= i <= n,
            n == text@.len(),
            s@ == text@,
            p == *pos,
            find_key_from(text@, 0, p as int) == find_key_from(text@, i as int, p as int),
        decreases n - i,
    {
        let bl = begin_len_at(s, i, n);
        if bl > 0 {
            let j = i + bl;
            if j < n && s.get_char(j) != '\n' {
                match scan_quote(s, j + 1, n) {
                    Some(k) => {
                        proof {
                            lemma_quote_scan_bounds(text@, j as int + 1);
                        }
                        if j <= p && p < k {
                            proof {
                                assert(find_key_from(text@, i as int, p as int) == Some(
                                    (j as int, k as int),
                                ));
                            }
                            let key = String::from_str(s.substring_char(j, k));
                            return Some(KeyMatch { start: j, end: k, text: key });
                        }
                        i = k + 1;
                        proof {
                            assert(find_key_from(text@, 0, p as int) == find_key_from(
                                text@,
                                i as int,
                                p as int,
                            ));
                        }
                    },
                    None => {
                        i = i + 1;
                    },
                }
            } else {
                i = i + 1;
            }
        } else {
            i = i + 1;
        }
    }
    None
}

/// The span of the translation key being typed at `pos`: the quoted span of
/// the earliest call marker that holds the offset or touches it at either
/// end, even when the closing quote has not been typed yet.
pub fn get_editing_range(text: &String, pos: &usize) -> (r: Option<core::ops::Range<usize>>)
    ensures
        (r is Some) == (spec_editing_range(text@, *pos as int) is Some),
        r is Some ==> {
            let (j, k) = spec_editing_range(text@, *pos as int)->0;
            r->0.start == j && r->0.end == k
        },
{
    let s = text.as_str();
    let n = s.unicode_len();
    let p = *pos;
    let mut i: usize = 0;
    while i < n
        invariant
            0 <= i <= n,
            n == text@.len(),
            s@ == text@,
            p == *pos,
            find_edit_from(text@, 0, p as int) == find_edit_from(text@, i as int, p as int),
        decreases n - i,
    {
        let bl = begin_len_at(s, i, n);
        if bl > 0 {
            let j = i + bl;
            let k = scan_edit_end(s, j, n);
            if j <= p && p <= k {
                proof {
                    assert(find_edit_from(text@, i as int, p as int) == Some((j as int, k as int)));
                }
                return Some(j..k);
            }
            if k >= n {
                proof {
                    assert(find_edit_from(text@, k as int + 1, p as int) is None);
                }
                return None;
            }
            i = k + 1;
        } else {
            i = i + 1;
        }
    }
    None
}

/// A found key span lies inside the text.
pub proof fn lemma_find_key_bounds(t: Seq<char>, i: int, pos: int)
    requires
        0 <= i,
    ensures
        find_key_from(t, i, pos) matches Some(jk) ==> 0 <= jk.0 <= jk.1 < t.len(),
    decreases t.len() - i,
{
    if i < 0 || i >= t.len() {
    } else if begin_marker_len(t, i) > 0 {
        let j = i + begin_marker_len(t, i);
        if j < t.len() && t[j] != '\n' {
            lemma_quote_scan_bounds(t, j + 1);
            match quote_scan(t, j + 1) {
                Some(k) => {
                    if !(j <= pos < k) {
                        lemma_find_key_bounds(t, k + 1, pos);
                    }
                },
                None => {
                    lemma_find_key_bounds(t, i + 1, pos);
                },
            }
        } else {
            lemma_find_key_bounds(t, i + 1, pos);
        }
    } else {
        lemma_find_key_bounds(t, i + 1, pos);
    }
}

pub proof fn lemma_find_key_in_text(t: Seq<char>, pos: int)
    ensures
        spec_find_key(t, pos) matches Some(jk) ==> 0 <= jk.0 <= jk.1 < t.len(),
{
    lemma_find_key_bounds(t, 0, pos);
}

/// A found editing span lies inside the text, end included.
pub proof fn lemma_editing_bounds(t: Seq<char>, i: int, pos: int)
    requires
        0 <= i,
    ensures
        find_edit_from(t, i, pos) matches Some(jk) ==> 0 <= jk.0 <= jk.1 <= t.len(),
    decreases t.len() + 1 - i,
{
    if i < 0 || i >= t.len() {
    } else if begin_marker_len(t, i) > 0 {
        let j = i + begin_marker_len(t, i);
        lemma_edit_scan_bounds(t, j);
        let k = edit_scan(t, j);
        if !(j <= pos <= k) {
            lemma_editing_bounds(t, k + 1, pos);
        }
    } else {
        lemma_editing_bounds(t, i + 1, pos);
    }
}

pub proof fn lemma_editing_range_in_text(t: Seq<char>, pos: int)
    ensures
        spec_editing_range(t, pos) matches Some(jk) ==> 0 <= jk.0 <= jk.1 <= t.len(),
{
    lemma_editing_bounds(t, 0, pos);
}

/// The quote characters that may open a translation key; typing one may
/// begin a completion.
pub fn translation_begin_chars() -> (r: Vec<char>)
    ensures
        r@ == seq!['\'', '"', '`'],
{
    let mut v: Vec<char> = Vec::new();
    v.push('\'');
    v.push('"');
    v.push('`');
    proof {
        assert(v@ =~= seq!['\'', '"', '`']);
    }
    v
}

/// The separator between the segments of a translation key.
pub fn translation_key_divider() -> (r: char)
    ensures
        r == '.',
{
    '.'
}

/// Whether a translation key is being typed at `pos`.
pub fn is_editing_position(text: &String, pos: &usize) -> (r: bool)
    ensures
        r == (spec_editing_range(text@, *pos as int) is Some),
{
    get_editing_range(text, pos).is_some()
}

} // verus!
