//! An incremental text-document model: one open editor document together with
//! a lazily built line-offset table, and the conversions between linear
//! character offsets and (line, column) positions.
use vstd::prelude::*;
use vstd::utf8::{encode_scalar, encode_utf8};

verus! {

broadcast use vstd::seq::group_seq_axioms;

/// A position in a document: a zero-based line and a zero-based column
/// counted in characters from the start of that line.
#[derive(Clone, Copy, PartialEq, Eq, Structural, Debug)]
pub struct Position {
    pub line: u32,
    pub character: u32,
}

/// A half-open span between two positions.
#[derive(Clone, Copy, PartialEq, Eq, Structural, Debug)]
pub struct Range {
    pub start: Position,
    pub end: Position,
}

/// One edit sent by the editor: either an incremental replacement of `range`
/// by `text`, or (when `range` and `range_length` are both absent) a full
/// replacement of the document by `text`.
#[derive(Clone, Debug)]
pub struct TextDocumentContentChangeEvent {
    pub range: Option<Range>,
    pub range_length: Option<u32>,
    pub text: String,
}

/// `p` is the first character offset of a line other than line 0: the
/// character before it is a line feed, or a carriage return that does not
/// form a `\r\n` pair.
pub open spec fn is_line_start(t: Seq<char>, p: int) -> bool {
    &&& 1 <= p <= t.len()
    &&& (t[p - 1] == '\n' || (t[p - 1] == '\r' && (p == t.len() || t[p] != '\n')))
}

/// The line-start offsets `p` with `lo <= p < hi`, in increasing order.
pub open spec fn starts_in(t: Seq<char>, lo: int, hi: int) -> Seq<int>
    decreases hi - lo,
{
    if lo >= hi {
        Seq::empty()
    } else if is_line_start(t, lo) {
        seq![lo] + starts_in(t, lo + 1, hi)
    } else {
        starts_in(t, lo + 1, hi)
    }
}

/// The canonical line-offset table of a text: 0 followed by every line start.
pub open spec fn line_table(t: Seq<char>) -> Seq<int> {
    seq![0int] + starts_in(t, 1, t.len() as int + 1)
}

/// An executable table `v` represents the canonical line-offset table of `t`.
pub open spec fn table_rep(t: Seq<char>, v: Seq<usize>) -> bool {
    v.map_values(|u: usize| u as int) == line_table(t)
}

/// One open text document. The line-offset table is built on demand and kept
/// consistent with `text` across edits.
#[derive(Clone)]
pub struct FullTextDocument {
    pub uri: String,
    /// The text document's language identifier.
    pub language_id: String,
    /// The version number of this document; it strictly increases after each
    /// change, including changes that do not alter the text.
    pub version: i64,
    /// The content of the opened text document.
    pub text: String,
    pub line_offset: Option<Vec<usize>>,
}

impl FullTextDocument {
    /// The cached line-offset table, when present, matches the text.
    pub open spec fn wf(&self) -> bool {
        match self.line_offset {
            Some(v) => table_rep(self.text@, v@),
            None => true,
        }
    }

    pub fn new(uri: String, language_id: String, version: i64, text: String) -> (doc:
        FullTextDocument)
        ensures
            doc.wf(),
            doc.uri@ == uri@,
            doc.language_id@ == language_id@,
            doc.version == version,
            doc.text@ == text@,
    {
        FullTextDocument { uri, language_id, version, text, line_offset: None }
    }

    pub fn is_incremental(event: &TextDocumentContentChangeEvent) -> (r: bool)
        ensures
            r == event.range is Some,
    {
        event.range.is_some()
    }

    pub fn is_full(event: &TextDocumentContentChangeEvent) -> (r: bool)
        ensures
            r == (event.range_length is None && event.range is None),
    {
        event.range_length.is_none() && event.range.is_none()
    }
}

/// Every line start strictly between `lo` and `hi` is listed, in order,
/// within its bounds.
pub proof fn lemma_starts_in_bounds(t: Seq<char>, lo: int, hi: int)
    ensures
        starts_in(t, lo, hi).len() <= (if hi >= lo {
            hi - lo
        } else {
            0
        }),
        forall|k: int|
            0 <= k < starts_in(t, lo, hi).len() ==> lo <= #[trigger] starts_in(t, lo, hi)[k] < hi
                && is_line_start(t, starts_in(t, lo, hi)[k]),
        forall|k1: int, k2: int|
            0 <= k1 < k2 < starts_in(t, lo, hi).len() ==> starts_in(t, lo, hi)[k1] < starts_in(
                t,
                lo,
                hi,
            )[k2],
        forall|p: int|
            lo <= p < hi && is_line_start(t, p) ==> starts_in(t, lo, hi).contains(p),
    decreases hi - lo,
{
    if lo >= hi {
    } else {
        lemma_starts_in_bounds(t, lo + 1, hi);
        let rest = starts_in(t, lo + 1, hi);
        if is_line_start(t, lo) {
            let whole = starts_in(t, lo, hi);
            assert(whole == seq![lo] + rest);
            assert forall|p: int| lo <= p < hi && is_line_start(t, p) implies whole.contains(
                p,
            ) by {
                if p == lo {
                    assert(whole[0] == lo);
                } else {
                    let k = choose|k: int| 0 <= k < rest.len() && rest[k] == p;
                    assert(whole[k + 1] == p);
                }
            }
        } else {
            assert forall|p: int| lo <= p < hi && is_line_start(t, p) implies starts_in(
                t,
                lo,
                hi,
            ).contains(p) by {
                let k = choose|k: int| 0 <= k < rest.len() && rest[k] == p;
                assert(starts_in(t, lo, hi)[k] == p);
            }
        }
    }
}

/// Splitting the scanned interval splits the listed line starts.
pub proof fn lemma_starts_in_split(t: Seq<char>, lo: int, mid: int, hi: int)
    requires
        lo <= mid <= hi,
    ensures
        starts_in(t, lo, hi) == starts_in(t, lo, mid) + starts_in(t, mid, hi),
    decreases mid - lo,
{
    if lo >= mid {
        assert(starts_in(t, lo, mid) == Seq::<int>::empty());
        assert(starts_in(t, lo, hi) == Seq::<int>::empty() + starts_in(t, lo, hi));
    } else {
        lemma_starts_in_split(t, lo + 1, mid, hi);
        if is_line_start(t, lo) {
            assert(starts_in(t, lo, hi) == seq![lo] + (starts_in(t, lo + 1, mid) + starts_in(
                t,
                mid,
                hi,
            )));
            assert(starts_in(t, lo, mid) == seq![lo] + starts_in(t, lo + 1, mid));
            assert(seq![lo] + (starts_in(t, lo + 1, mid) + starts_in(t, mid, hi)) == (seq![lo]
                + starts_in(t, lo + 1, mid)) + starts_in(t, mid, hi));
        }
    }
}

/// Where two texts agree, shifted by `d`, on the neighbourhood of an
/// interval, they have the same line starts there, shifted by `d`.
pub proof fn lemma_starts_in_congruent(t1: Seq<char>, t2: Seq<char>, lo: int, hi: int, d: int)
    requires
        forall|p: int| lo <= p < hi ==> is_line_start(t1, p) == is_line_start(t2, p + d),
    ensures
        starts_in(t2, lo + d, hi + d) == starts_in(t1, lo, hi).map_values(|p: int| p + d),
    decreases hi - lo,
{
    if lo >= hi {
        assert(starts_in(t1, lo, hi).map_values(|p: int| p + d) == Seq::<int>::empty());
    } else {
        lemma_starts_in_congruent(t1, t2, lo + 1, hi, d);
        if is_line_start(t1, lo) {
            assert(starts_in(t1, lo, hi) == seq![lo] + starts_in(t1, lo + 1, hi));
            assert(starts_in(t1, lo, hi).map_values(|p: int| p + d) == seq![lo + d] + starts_in(
                t1,
                lo + 1,
                hi,
            ).map_values(|p: int| p + d));
        } else {
            assert(starts_in(t1, lo, hi) == starts_in(t1, lo + 1, hi));
        }
    }
}

/// The line-offset table of a text is non-empty, begins with 0, is strictly
/// increasing, stays within the text, and lists every line start.
pub proof fn lemma_line_table(t: Seq<char>)
    ensures
        1 <= line_table(t).len() <= t.len() + 1,
        line_table(t)[0] == 0,
        forall|k1: int, k2: int|
            0 <= k1 < k2 < line_table(t).len() ==> line_table(t)[k1] < line_table(t)[k2],
        forall|k: int| 0 <= k < line_table(t).len() ==> 0 <= #[trigger] line_table(t)[k] <= t.len(),
        forall|k: int| 1 <= k < line_table(t).len() ==> is_line_start(t, #[trigger] line_table(t)[k]),
        forall|p: int| is_line_start(t, p) ==> #[trigger] line_table(t).contains(p),
{
    let s = starts_in(t, 1, t.len() as int + 1);
    lemma_starts_in_bounds(t, 1, t.len() as int + 1);
    assert forall|p: int| is_line_start(t, p) implies #[trigger] line_table(t).contains(p) by {
        assert(s.contains(p));
        let k = choose|k: int| 0 <= k < s.len() && s[k] == p;
        assert(line_table(t)[k + 1] == p);
    }
}

/// The index of the line holding offset `o`: the largest `l` with
/// `tbl[l] <= o`, for a table that is sorted and starts at or below `o`.
pub open spec fn spec_line_of(tbl: Seq<int>, o: int) -> int
    decreases tbl.len(),
{
    if tbl.len() <= 1 {
        0
    } else if tbl[1] > o {
        0
    } else {
        1 + spec_line_of(tbl.drop_first(), o)
    }
}

pub proof fn lemma_spec_line_of(tbl: Seq<int>, o: int)
    requires
        tbl.len() >= 1,
        tbl[0] <= o,
        forall|k1: int, k2: int| 0 <= k1 < k2 < tbl.len() ==> tbl[k1] < tbl[k2],
    ensures
        0 <= spec_line_of(tbl, o) < tbl.len(),
        tbl[spec_line_of(tbl, o)] <= o,
        spec_line_of(tbl, o) + 1 < tbl.len() ==> o < tbl[spec_line_of(tbl, o) + 1],
    decreases tbl.len(),
{
    if tbl.len() <= 1 {
    } else if tbl[1] > o {
    } else {
        let rest = tbl.drop_first();
        lemma_spec_line_of(rest, o);
    }
}

/// Any index with the bracketing property is the line index.
pub proof fn lemma_line_of_unique(tbl: Seq<int>, o: int, l: int)
    requires
        tbl.len() >= 1,
        tbl[0] <= o,
        forall|k1: int, k2: int| 0 <= k1 < k2 < tbl.len() ==> tbl[k1] < tbl[k2],
        0 <= l < tbl.len(),
        tbl[l] <= o,
        l + 1 < tbl.len() ==> o < tbl[l + 1],
    ensures
        l == spec_line_of(tbl, o),
    decreases tbl.len(),
{
    if tbl.len() <= 1 {
    } else if tbl[1] > o {
        if l > 0 {
            assert(tbl[1] <= tbl[l]);
        }
    } else {
        let rest = tbl.drop_first();
        assert(l >= 1) by {
            if l == 0 {
                assert(o < tbl[1]);
            }
        }
        lemma_line_of_unique(rest, o, l - 1);
    }
}

/// The (line, column) pair a clamped offset maps to.
pub open spec fn spec_position_at(t: Seq<char>, offset: int) -> (int, int) {
    let o = if offset > t.len() {
        t.len() as int
    } else if offset < 0 {
        0
    } else {
        offset
    };
    let tbl = line_table(t);
    let line = spec_line_of(tbl, o);
    (line, o - tbl[line])
}

/// The clamped offset a (line, column) pair maps to.
pub open spec fn spec_offset_at(t: Seq<char>, line: int, character: int) -> int {
    let tbl = line_table(t);
    if line >= tbl.len() {
        t.len() as int
    } else {
        let lo = tbl[line];
        let next = if line + 1 < tbl.len() {
            tbl[line + 1]
        } else {
            t.len() as int
        };
        if character > next - lo {
            next
        } else {
            lo + character
        }
    }
}

/// Whether offset `p` begins a line of `s`, read from the characters around
/// it.
fn line_start_at(s: &str, p: usize, n: usize) -> (r: bool)
    requires
        1 <= p <= n,
        n == s@.len(),
    ensures
        r == is_line_start(s@, p as int),
{
    let prev = s.get_char(p - 1);
    if prev == '\n' {
        true
    } else if prev == '\r' {
        p == n || s.get_char(p) != '\n'
    } else {
        false
    }
}

/// The line-offset table of `text`, each entry shifted by `text_offset`, with
/// a leading entry for the start of the text itself when `is_at_line_start`.
pub fn compute_line_offsets(text: &String, is_at_line_start: bool, text_offset: Option<usize>) -> (r:
    Vec<usize>)
    requires
        (match text_offset {
            Some(d) => d,
            None => 0,
        }) + text@.len() <= usize::MAX,
    ensures
        r@.map_values(|u: usize| u as int) == {
            let d = (match text_offset {
                Some(d) => d,
                None => 0,
            }) as int;
            (if is_at_line_start {
                seq![d]
            } else {
                Seq::<int>::empty()
            }) + starts_in(text@, 1, text@.len() as int + 1).map_values(|p: int| p + d)
        },
{
    let d = match text_offset {
        Some(o) => o,
        None => 0,
    };
    let ghost lead = if is_at_line_start {
        seq![d as int]
    } else {
        Seq::<int>::empty()
    };
    let mut r: Vec<usize> = Vec::new();
    if is_at_line_start {
        r.push(d);
    }
    assert(r@.map_values(|u: usize| u as int) =~= lead);
    let s = text.as_str();
    let n = s.unicode_len();
    let mut i: usize = 0;
    assert(starts_in(text@, 1, 1) == Seq::<int>::empty());
    assert(r@.map_values(|u: usize| u as int) =~= lead + starts_in(text@, 1, 1).map_values(
        |q: int| q + d,
    ));
    while i < n
        invariant
            0 <= i <= n,
            n == text@.len(),
            text@ == s@,
            d + n <= usize::MAX,
            r@.map_values(|u: usize| u as int) == lead + starts_in(
                text@,
                1,
                i as int + 1,
            ).map_values(|q: int| q + d),
        decreases n - i,
    {
        let p = i + 1;
        let is_start = line_start_at(s, p, n);
        proof {
            lemma_starts_in_split(text@, 1, p as int, p as int + 1);
            assert(starts_in(text@, p as int + 1, p as int + 1) == Seq::<int>::empty());
        }
        if is_start {
            let ghost prev = r@;
            r.push(d + p);
            proof {
                broadcast use Seq::lemma_push_map_commute;

                assert(starts_in(text@, p as int, p as int + 1) =~= seq![p as int]);
                assert(starts_in(text@, 1, p as int + 1) == starts_in(text@, 1, p as int).push(
                    p as int,
                ));
                assert(r@ == prev.push((d + p) as usize));
                assert(starts_in(text@, 1, p as int + 1).map_values(|q: int| q + d) == starts_in(
                    text@,
                    1,
                    p as int,
                ).map_values(|q: int| q + d).push(p + d));
                assert(r@.map_values(|u: usize| u as int) =~= lead + starts_in(
                    text@,
                    1,
                    p as int + 1,
                ).map_values(|q: int| q + d));
            }
        } else {
            assert(starts_in(text@, p as int, p as int + 1) =~= Seq::<int>::empty());
            assert(starts_in(text@, 1, p as int + 1) =~= starts_in(text@, 1, p as int));
        }
        i = p;
    }
    r
}

impl FullTextDocument {
    /// Build the line-offset table if it is not cached yet.
    fn ensure_line_offsets(&mut self)
        requires
            old(self).wf(),
        ensures
            final(self).wf(),
            final(self).line_offset is Some,
            final(self).uri == old(self).uri,
            final(self).language_id == old(self).language_id,
            final(self).version == old(self).version,
            final(self).text == old(self).text,
    {
        if self.line_offset.is_none() {
            let n = self.text.as_str().unicode_len();
            let v = compute_line_offsets(&self.text, true, None);
            proof {
                assert(v@.map_values(|u: usize| u as int) =~= line_table(self.text@)) by {
                    assert(starts_in(self.text@, 1, self.text@.len() as int + 1).map_values(
                        |p: int| p + 0,
                    ) =~= starts_in(self.text@, 1, self.text@.len() as int + 1));
                }
            }
            self.line_offset = Some(v);
        }
    }

    /// The cached line-offset table, built on demand.
    pub fn get_line_offsets(&mut self) -> (r: &Vec<usize>)
        requires
            old(self).wf(),
        ensures
            final(self).wf(),
            final(self).uri == old(self).uri,
            final(self).language_id == old(self).language_id,
            final(self).version == old(self).version,
            final(self).text == old(self).text,
            table_rep(final(self).text@, r@),
    {
        self.ensure_line_offsets();
        match &self.line_offset {
            Some(v) => v,
            None => unreached(),
        }
    }

    /// How many lines the document has.
    pub fn line_count(&mut self) -> (r: usize)
        requires
            old(self).wf(),
        ensures
            final(self).wf(),
            final(self).uri == old(self).uri,
            final(self).language_id == old(self).language_id,
            final(self).version == old(self).version,
            final(self).text == old(self).text,
            r == line_table(final(self).text@).len(),
    {
        let lo_ref = self.get_line_offsets();
        let r = lo_ref.len();
        proof {
            assert(lo_ref@.map_values(|u: usize| u as int).len() == line_table(
                self.text@,
            ).len());
        }
        r
    }

    /// The position of a character offset; offsets past the end of the text
    /// are clamped to its end.
    pub fn position_at(&mut self, offset: u32) -> (pos: Position)
        requires
            old(self).wf(),
            old(self).text@.len() <= u32::MAX,
        ensures
            final(self).wf(),
            final(self).uri == old(self).uri,
            final(self).language_id == old(self).language_id,
            final(self).version == old(self).version,
            final(self).text == old(self).text,
            pos.line == spec_position_at(old(self).text@, offset as int).0,
            pos.character == spec_position_at(old(self).text@, offset as int).1,
    {
        self.ensure_line_offsets();
        let ghost t = self.text@;
        let ghost tbl = line_table(t);
        proof {
            lemma_line_table(t);
        }
        let n = self.text.as_str().unicode_len();
        let o: usize = if offset as usize > n {
            n
        } else {
            offset as usize
        };
        let line_offsets = match &self.line_offset {
            Some(v) => v,
            None => unreached(),
        };
        let ghost vm = line_offsets@.map_values(|u: usize| u as int);
        let mut low: usize = 0;
        let mut high: usize = line_offsets.len();
        while low < high
            invariant
                0 <= low <= high <= line_offsets.len(),
                vm == tbl,
                vm == line_offsets@.map_values(|u: usize| u as int),
                forall|k1: int, k2: int| 0 <= k1 < k2 < tbl.len() ==> tbl[k1] < tbl[k2],
                forall|k: int| 0 <= k < low ==> tbl[k] <= o,
                forall|k: int| high <= k < tbl.len() ==> tbl[k] > o,
            decreases high - low,
        {
            let mid = low + (high - low) / 2;
            assert(line_offsets@[mid as int] as int == tbl[mid as int]);
            if line_offsets[mid] > o {
                high = mid;
            } else {
                low = mid + 1;
            }
        }
        proof {
            assert(tbl[0] == 0 <= o);
            if low == 0 {
                assert(tbl[0] > o);
            }
        }
        let line = low - 1;
        assert(line_offsets@[line as int] as int == tbl[line as int]);
        let line_off = line_offsets[line];
        proof {
            lemma_line_of_unique(tbl, o as int, line as int);
            assert(line < tbl.len() <= t.len() + 1);
        }
        Position { line: line as u32, character: (o - line_off) as u32 }
    }

    /// The character offset of a position; out-of-range lines map to the end
    /// of the text and columns are clamped to the position's line.
    pub fn offset_at(&mut self, position: Position) -> (r: usize)
        requires
            old(self).wf(),
        ensures
            final(self).wf(),
            final(self).uri == old(self).uri,
            final(self).language_id == old(self).language_id,
            final(self).version == old(self).version,
            final(self).text == old(self).text,
            r == spec_offset_at(old(self).text@, position.line as int, position.character as int),
    {
        self.ensure_line_offsets();
        let ghost t = self.text@;
        let ghost tbl = line_table(t);
        proof {
            lemma_line_table(t);
        }
        let n = self.text.as_str().unicode_len();
        let line_offsets = match &self.line_offset {
            Some(v) => v,
            None => unreached(),
        };
        let ghost vm = line_offsets@.map_values(|u: usize| u as int);
        let li = position.line as usize;
        if li >= line_offsets.len() {
            return n;
        }
        assert(line_offsets@[li as int] as int == tbl[li as int]);
        let line_off = line_offsets[li];
        let next = if li + 1 < line_offsets.len() {
            assert(line_offsets@[li as int + 1] as int == tbl[li as int + 1]);
            line_offsets[li + 1]
        } else {
            n
        };
        assert(line_off <= next);
        let ch = position.character as usize;
        if ch > next - line_off {
            next
        } else {
            line_off + ch
        }
    }
}

/// UTF-8 encoding maps concatenation of texts to concatenation of bytes.
pub proof fn lemma_encode_utf8_concat(a: Seq<char>, b: Seq<char>)
    ensures
        encode_utf8(a + b) == encode_utf8(a) + encode_utf8(b),
    decreases a.len(),
{
    if a.len() == 0 {
        assert(a + b =~= b);
        assert(encode_utf8(a) + encode_utf8(b) =~= encode_utf8(b));
    } else {
        assert((a + b).drop_first() =~= a.drop_first() + b);
        lemma_encode_utf8_concat(a.drop_first(), b);
        assert((a + b)[0] == a[0]);
        assert(encode_scalar(a[0] as u32) + (encode_utf8(a.drop_first()) + encode_utf8(b)) =~= (
        encode_scalar(a[0] as u32) + encode_utf8(a.drop_first())) + encode_utf8(b));
    }
}

/// How many bytes the UTF-8 encoding of one character takes.
fn char_utf8_len(c: char) -> (r: usize)
    ensures
        r == encode_scalar(c as u32).len(),
        1 <= r <= 4,
{
    let u = c as u32;
    if u < 0x80 {
        1
    } else if u < 0x800 {
        2
    } else if u < 0x10000 {
        3
    } else {
        4
    }
}

impl FullTextDocument {
    /// Converts two character offsets into the byte offsets of the same
    /// places in the UTF-8 encoding of the text.
    pub fn transform_offset_to_byte_offset(&self, start_offset: usize, end_offset: usize) -> (r: (
        usize,
        usize,
    ))
        requires
            start_offset <= end_offset <= self.text@.len(),
        ensures
            r.0 == encode_utf8(self.text@.subrange(0, start_offset as int)).len(),
            r.1 == encode_utf8(self.text@.subrange(0, end_offset as int)).len(),
    {
        let ghost t = self.text@;
        let s = self.text.as_str();
        let total_bytes = s.as_bytes().len();
        proof {
            assert(t.subrange(0, t.len() as int) =~= t);
        }
        let mut sum: usize = 0;
        let mut start_byte: usize = 0;
        let mut i: usize = 0;
        assert(encode_utf8(t.subrange(0, 0)).len() == 0);
        while i < end_offset
            invariant
                0 <= i <= end_offset <= t.len(),
                start_offset <= end_offset,
                t == s@,
                sum == encode_utf8(t.subrange(0, i as int)).len(),
                total_bytes == encode_utf8(t).len(),
                start_byte == encode_utf8(
                    t.subrange(0, (if i < start_offset { i } else { start_offset }) as int),
                ).len(),
            decreases end_offset - i,
        {
            let c = s.get_char(i);
            let w = char_utf8_len(c);
            proof {
                assert(t.subrange(0, i as int + 1) =~= t.subrange(0, i as int) + seq![t[i as int]]);
                lemma_encode_utf8_concat(t.subrange(0, i as int), seq![t[i as int]]);
                assert(seq![t[i as int]].drop_first() =~= Seq::<char>::empty());
                assert(encode_utf8(Seq::<char>::empty()) == Seq::<u8>::empty());
                assert(encode_utf8(seq![t[i as int]]) =~= encode_scalar(t[i as int] as u32));
                assert(t =~= t.subrange(0, i as int + 1) + t.subrange(i as int + 1, t.len() as int));
                lemma_encode_utf8_concat(
                    t.subrange(0, i as int + 1),
                    t.subrange(i as int + 1, t.len() as int),
                );
            }
            sum = sum + w;
            i = i + 1;
            if i <= start_offset {
                start_byte = sum;
            }
        }
        (start_byte, sum)
    }
}

/// A run of table entries below a bound is exactly the list of line starts
/// below that bound.
proof fn lemma_starts_prefix_len(t: Seq<char>, n: int, b: int, c: int)
    requires
        t.len() == n,
        1 <= b <= n + 1,
        0 <= c <= starts_in(t, 1, n + 1).len(),
        forall|k: int| 0 <= k < c ==> #[trigger] starts_in(t, 1, n + 1)[k] < b,
        c < starts_in(t, 1, n + 1).len() ==> starts_in(t, 1, n + 1)[c] >= b,
    ensures
        starts_in(t, 1, b) == starts_in(t, 1, n + 1).subrange(0, c),
        starts_in(t, b, n + 1) == starts_in(t, 1, n + 1).subrange(c, starts_in(
            t,
            1,
            n + 1,
        ).len() as int),
{
    let full = starts_in(t, 1, n + 1);
    let low = starts_in(t, 1, b);
    let high = starts_in(t, b, n + 1);
    lemma_starts_in_split(t, 1, b, n + 1);
    lemma_starts_in_bounds(t, 1, b);
    lemma_starts_in_bounds(t, b, n + 1);
    assert(full == low + high);
    if low.len() > c {
        assert(full[c] == low[c]);
        assert(low[c] < b);
        assert(c < full.len());
    } else if low.len() < c {
        assert(full[low.len() as int] == high[0]);
        assert(high[0] >= b);
        assert(full[low.len() as int] < b);
    }
    assert(low.len() == c);
    assert(low =~= full.subrange(0, c));
    assert(high =~= full.subrange(c, full.len() as int));
}

/// Rebuild the line-offset table after the characters `[s, e)` of the old
/// text were replaced by `m` new ones: entries before the edit are kept,
/// the stretch the edit covers is rescanned against the new text, and
/// entries after the edit are shifted by the length delta.
#[verifier::rlimit(60)]
fn rebuild_line_offsets(
    old_table: &Vec<usize>,
    newtext: &String,
    s: usize,
    e: usize,
    m: usize,
    n_old: usize,
    n_new: usize,
    Ghost(told): Ghost<Seq<char>>,
) -> (nt: Vec<usize>)
    requires
        table_rep(told, old_table@),
        s <= e <= n_old,
        n_old == told.len(),
        n_new == newtext@.len(),
        n_new == n_old - e + s + m,
        forall|i: int| 0 <= i < s ==> newtext@[i] == #[trigger] told[i],
        forall|i: int| 0 <= i < n_old - e ==> newtext@[s + m + i] == #[trigger] told[e + i],
    ensures
        table_rep(newtext@, nt@),
{
    let ghost tnew = newtext@;
    let ghost full = starts_in(told, 1, n_old as int + 1);
    let ghost d = s + m - e as int;
    // The lower cut: below it the old entries are kept as they are.
    let a: usize = if s == 0 {
        1
    } else {
        s
    };
    let ghost part_a = starts_in(told, 1, a as int);
    proof {
        lemma_line_table(told);
        lemma_starts_in_bounds(told, 1, n_old as int + 1);
        assert(old_table@.map_values(|u: usize| u as int) == seq![0int] + full);
        assert(old_table@.map_values(|u: usize| u as int).len() == old_table@.len());
        assert(old_table@.len() == 1 + full.len());
        assert forall|k: int| 1 <= k < old_table@.len() implies old_table@[k] as int == full[k
            - 1] by {
            assert(old_table@.map_values(|u: usize| u as int)[k] == old_table@[k] as int);
        }
        assert(s + m <= n_new);
    }
    let mut nt: Vec<usize> = Vec::new();
    nt.push(0);
    proof {
        assert(nt@.map_values(|u: usize| u as int) =~= seq![0int] + full.subrange(0, 0));
    }
    let mut idx: usize = 1;
    while idx < old_table.len() && old_table[idx] < s
        invariant
            1 <= idx <= old_table.len(),
            old_table@.len() == 1 + full.len(),
            forall|k: int| 1 <= k < old_table@.len() ==> old_table@[k] as int == full[k - 1],
            nt@.map_values(|u: usize| u as int) == seq![0int] + full.subrange(0, idx - 1),
            forall|k: int| 0 <= k < idx - 1 ==> #[trigger] full[k] < s,
        decreases old_table.len() - idx,
    {
        let ghost prev = nt@;
        nt.push(old_table[idx]);
        proof {
            broadcast use Seq::lemma_push_map_commute;

            assert(nt@ == prev.push(old_table@[idx as int]));
            assert(full.subrange(0, idx as int) =~= full.subrange(0, idx - 1).push(full[idx - 1]));
            assert(nt@.map_values(|u: usize| u as int) =~= seq![0int] + full.subrange(
                0,
                idx as int,
            ));
        }
        idx += 1;
    }
    proof {
        // The kept entries are exactly the line starts below the edit.
        assert forall|k: int| 0 <= k < idx - 1 implies #[trigger] full[k] < a by {
            assert(full[k] < s);
        }
        lemma_starts_prefix_len(told, n_old as int, a as int, idx - 1);
        assert(part_a == full.subrange(0, idx - 1));
        assert(nt@.map_values(|u: usize| u as int) == seq![0int] + part_a);
        // Below the edit the old and the new text have the same line starts.
        assert forall|p: int| 1 <= p < a implies is_line_start(told, p) == is_line_start(
            tnew,
            p,
        ) by {
            assert(newtext@[p - 1] == told[p - 1]);
            assert(newtext@[p] == told[p]);
            assert(p < told.len());
            assert(p < tnew.len());
        }
        lemma_starts_in_congruent(told, tnew, 1, a as int, 0);
        assert(starts_in(told, 1, a as int).map_values(|q: int| q + 0) =~= starts_in(
            told,
            1,
            a as int,
        ));
        assert(starts_in(tnew, 1, a as int) == part_a);
    }
    // Rescan the stretch the edit covers, with one character of context on
    // each side, against the new text.
    let mut q: usize = a - 1;
    proof {
        assert(starts_in(tnew, a as int, a as int) == Seq::<int>::empty());
        assert(nt@.map_values(|u: usize| u as int) =~= seq![0int] + part_a + starts_in(
            tnew,
            a as int,
            a as int,
        ));
    }
    while q < s + m
        invariant
            a - 1 <= q <= s + m,
            a >= 1,
            s + m <= n_new,
            tnew == newtext@,
            n_new == tnew.len(),
            nt@.map_values(|u: usize| u as int) == seq![0int] + part_a + starts_in(
                tnew,
                a as int,
                q as int + 1,
            ),
        decreases s + m - q,
    {
        let p = q + 1;
        let is_start = line_start_at(newtext.as_str(), p, n_new);
        proof {
            lemma_starts_in_split(tnew, a as int, p as int, p as int + 1);
            assert(starts_in(tnew, p as int + 1, p as int + 1) == Seq::<int>::empty());
        }
        if is_start {
            let ghost prev = nt@;
            nt.push(p);
            proof {
                broadcast use Seq::lemma_push_map_commute;

                assert(starts_in(tnew, p as int, p as int + 1) =~= seq![p as int]);
                assert(starts_in(tnew, a as int, p as int + 1) == starts_in(
                    tnew,
                    a as int,
                    p as int,
                ).push(p as int));
                assert(nt@ == prev.push(p));
                assert(nt@.map_values(|u: usize| u as int) =~= seq![0int] + part_a + starts_in(
                    tnew,
                    a as int,
                    p as int + 1,
                ));
            }
        } else {
            assert(starts_in(tnew, p as int, p as int + 1) =~= Seq::<int>::empty());
            assert(starts_in(tnew, a as int, p as int + 1) =~= starts_in(tnew, a as int, p as int));
        }
        q = p;
    }
    let ghost part_c = starts_in(tnew, a as int, s + m as int + 1);
    // Skip the entries the edit swallowed.
    while idx < old_table.len() && old_table[idx] <= e
        invariant
            1 <= idx <= old_table.len(),
            old_table@.len() == 1 + full.len(),
            forall|k: int| 1 <= k < old_table@.len() ==> old_table@[k] as int == full[k - 1],
            forall|k: int| 0 <= k < idx - 1 ==> #[trigger] full[k] <= e,
        decreases old_table.len() - idx,
    {
        idx += 1;
    }
    let ghost part_e = starts_in(told, e as int + 1, n_old as int + 1);
    let ghost part_es = part_e.map_values(|q2: int| q2 + d);
    let ghost k2 = idx as int;
    proof {
        lemma_starts_prefix_len(told, n_old as int, e as int + 1, idx - 1);
        assert(part_e == full.subrange(k2 - 1, full.len() as int));
        lemma_starts_in_bounds(told, e as int + 1, n_old as int + 1);
        // Line starts after the edit correspond, shifted by the length delta.
        assert forall|p: int| e + 1 <= p < n_old + 1 implies is_line_start(told, p)
            == is_line_start(tnew, p + d) by {
            let i = p - 1 - e;
            assert(newtext@[s + m + i] == told[e + i]);
            assert(e + i == p - 1);
            assert(s + m + i == p + d - 1);
            if p < n_old {
                let j = p - e;
                assert(newtext@[s + m + j] == told[e + j]);
            }
            assert(p == n_old <==> p + d == n_new);
        }
        lemma_starts_in_congruent(told, tnew, e as int + 1, n_old as int + 1, d);
        assert(e + 1 + d == s + m as int + 1);
        assert(n_old as int + 1 + d == n_new as int + 1);
        assert(starts_in(tnew, s + m as int + 1, n_new as int + 1) == part_es);
        assert(part_es.subrange(0, 0) =~= Seq::<int>::empty());
        assert(nt@.map_values(|u: usize| u as int) =~= seq![0int] + part_a + part_c
            + part_es.subrange(0, idx - k2));
    }
    // Shift and append the entries after the edit.
    while idx < old_table.len()
        invariant
            k2 <= idx <= old_table.len(),
            1 <= k2,
            old_table@.len() == 1 + full.len(),
            forall|k: int| 1 <= k < old_table@.len() ==> old_table@[k] as int == full[k - 1],
            part_e == full.subrange(k2 - 1, full.len() as int),
            part_es == part_e.map_values(|q2: int| q2 + d),
            forall|k: int| 0 <= k < part_e.len() ==> e + 1 <= #[trigger] part_e[k] <= n_old,
            s <= e <= n_old,
            d == s + m - e as int,
            n_new == n_old - e + s + m,
            nt@.map_values(|u: usize| u as int) == seq![0int] + part_a + part_c + part_es.subrange(
                0,
                idx - k2,
            ),
        decreases old_table.len() - idx,
    {
        let x = old_table[idx];
        proof {
            assert(old_table@[idx as int] as int == full[idx - 1]);
            assert(full[idx - 1] == part_e[idx - k2]);
            assert(e + 1 <= x <= n_old);
        }
        let shifted = (x - (e - s)) + m;
        let ghost prev = nt@;
        nt.push(shifted);
        proof {
            broadcast use Seq::lemma_push_map_commute;

            assert(shifted as int == part_e[idx - k2] + d);
            assert(part_es[idx - k2] == part_e[idx - k2] + d);
            assert(part_es.subrange(0, idx - k2 + 1) =~= part_es.subrange(0, idx - k2).push(
                part_es[idx - k2],
            ));
            assert(nt@ == prev.push(shifted));
            assert(nt@.map_values(|u: usize| u as int) =~= seq![0int] + part_a + part_c
                + part_es.subrange(0, idx - k2 + 1));
        }
        idx += 1;
    }
    proof {
        assert(part_es.subrange(0, idx - k2) =~= part_es) by {
            assert(part_e.len() == full.len() - (k2 - 1));
            assert(idx - k2 == part_es.len());
        }
        lemma_starts_in_split(tnew, 1, a as int, n_new as int + 1);
        lemma_starts_in_split(tnew, a as int, s + m as int + 1, n_new as int + 1);
        assert(starts_in(tnew, 1, n_new as int + 1) == part_a + (part_c + part_es));
        assert(seq![0int] + part_a + part_c + part_es =~= seq![0int] + (part_a + (part_c
            + part_es)));
        assert(nt@.map_values(|u: usize| u as int) == line_table(tnew));
    }
    nt
}

/// Whether position `a` is at or before position `b`.
pub open spec fn pos_le(a: Position, b: Position) -> bool {
    a.line < b.line || (a.line == b.line && a.character <= b.character)
}

/// A range with its endpoints swapped when they arrive out of order.
pub open spec fn spec_wellformed_range(range: Range) -> Range {
    if pos_le(range.start, range.end) {
        range
    } else {
        Range { start: range.end, end: range.start }
    }
}

/// Normalizes a malformed range (end before start) by swapping its ends.
pub fn get_wellformed_range(range: Range) -> (r: Range)
    ensures
        r == spec_wellformed_range(range),
{
    let start = range.start;
    let end = range.end;
    if start.line > end.line || (start.line == end.line && start.character > end.character) {
        Range { start: end, end: start }
    } else {
        range
    }
}

/// The ordered pair of character offsets an edit range denotes in `t`.
pub open spec fn spec_change_bounds(t: Seq<char>, range: Range) -> (int, int) {
    let wr = spec_wellformed_range(range);
    let s0 = spec_offset_at(t, wr.start.line as int, wr.start.character as int);
    let e0 = spec_offset_at(t, wr.end.line as int, wr.end.character as int);
    if s0 <= e0 {
        (s0, e0)
    } else {
        (e0, s0)
    }
}

/// The text after one edit: a splice for an incremental edit, the new text
/// for a full replacement, and the old text for a malformed event.
pub open spec fn spec_apply_change(t: Seq<char>, c: TextDocumentContentChangeEvent) -> Seq<char> {
    if c.range is Some {
        let b = spec_change_bounds(t, c.range->0);
        t.subrange(0, b.0) + c.text@ + t.subrange(b.1, t.len() as int)
    } else if c.range_length is None {
        c.text@
    } else {
        t
    }
}

/// The text after a sequence of edits, applied in order.
pub open spec fn spec_apply_changes(t: Seq<char>, cs: Seq<TextDocumentContentChangeEvent>) -> Seq<
    char,
>
    decreases cs.len(),
{
    if cs.len() == 0 {
        t
    } else {
        spec_apply_changes(spec_apply_change(t, cs[0]), cs.drop_first())
    }
}

pub proof fn lemma_apply_changes_push(
    t: Seq<char>,
    cs: Seq<TextDocumentContentChangeEvent>,
    c: TextDocumentContentChangeEvent,
)
    ensures
        spec_apply_changes(t, cs.push(c)) == spec_apply_change(spec_apply_changes(t, cs), c),
    decreases cs.len(),
{
    if cs.len() == 0 {
        assert(cs.push(c)[0] == c);
        assert(cs.push(c).drop_first() =~= Seq::<TextDocumentContentChangeEvent>::empty());
        assert(spec_apply_changes(
            spec_apply_change(t, c),
            Seq::<TextDocumentContentChangeEvent>::empty(),
        ) == spec_apply_change(t, c));
    } else {
        assert(cs.push(c)[0] == cs[0]);
        assert(cs.push(c).drop_first() =~= cs.drop_first().push(c));
        lemma_apply_changes_push(spec_apply_change(t, cs[0]), cs.drop_first(), c);
    }
}

/// An offset computed from any non-negative position stays within the text.
pub proof fn lemma_offset_at_bounds(t: Seq<char>, line: int, character: int)
    requires
        0 <= line,
        0 <= character,
    ensures
        0 <= spec_offset_at(t, line, character) <= t.len(),
{
    lemma_line_table(t);
}

/// Converting a valid offset to a position and back returns the same offset.
pub proof fn lemma_position_offset_roundtrip(t: Seq<char>, o: int)
    requires
        0 <= o <= t.len(),
    ensures
        spec_offset_at(t, spec_position_at(t, o).0, spec_position_at(t, o).1) == o,
{
    lemma_line_table(t);
    let tbl = line_table(t);
    lemma_spec_line_of(tbl, o);
    let l = spec_line_of(tbl, o);
    if l + 1 < tbl.len() {
        assert(o < tbl[l + 1]);
    }
}

impl FullTextDocument {
    /// Splice `ins` over the character range `[s, e)` of the text and mend
    /// the line-offset table around the edit.
    fn apply_incremental(&mut self, s: usize, e: usize, ins: &String)
        requires
            old(self).wf(),
            s <= e <= old(self).text@.len(),
        ensures
            final(self).wf(),
            final(self).text@ == old(self).text@.subrange(0, s as int) + ins@ + old(
                self,
            ).text@.subrange(e as int, old(self).text@.len() as int),
            final(self).uri == old(self).uri,
            final(self).language_id == old(self).language_id,
            final(self).version == old(self).version,
    {
        self.ensure_line_offsets();
        let ghost told = self.text@;
        let n_old = self.text.as_str().unicode_len();
        let m = ins.as_str().unicode_len();
        let pre = self.text.as_str().substring_char(0, s);
        let mut newtext = String::from_str(pre);
        newtext.append(ins.as_str());
        let suf = self.text.as_str().substring_char(e, n_old);
        newtext.append(suf);
        let n_new = newtext.as_str().unicode_len();
        proof {
            assert(newtext@ == told.subrange(0, s as int) + ins@ + told.subrange(
                e as int,
                n_old as int,
            ));
            assert forall|i: int| 0 <= i < s implies newtext@[i] == #[trigger] told[i] by {
                assert(newtext@[i] == told.subrange(0, s as int)[i]);
            }
            assert forall|i: int| 0 <= i < n_old - e implies newtext@[s + m + i] == #[trigger] told[
                e + i
            ] by {
                assert(newtext@[s + m + i] == told.subrange(e as int, n_old as int)[i]);
            }
        }
        let old_table = match self.line_offset.take() {
            Some(v) => v,
            None => unreached(),
        };
        let nt = rebuild_line_offsets(&old_table, &newtext, s, e, m, n_old, n_new, Ghost(told));
        self.text = newtext;
        self.line_offset = Some(nt);
    }

    /// Apply the editor's content changes in arrival order and advance the
    /// version. Incremental edits splice the given range; full events
    /// replace the text wholesale.
    pub fn update(&mut self, changes: Vec<TextDocumentContentChangeEvent>, version: i64)
        requires
            old(self).wf(),
        ensures
            final(self).wf(),
            final(self).text@ == spec_apply_changes(old(self).text@, changes@),
            final(self).uri == old(self).uri,
            final(self).language_id == old(self).language_id,
            final(self).version == (if changes@.len() > 0 {
                version
            } else {
                old(self).version
            }),
    {
        let n = changes.len();
        let mut ci: usize = 0;
        proof {
            assert(changes@.subrange(0, 0) =~= Seq::<TextDocumentContentChangeEvent>::empty());
        }
        while ci < n
            invariant
                self.wf(),
                0 <= ci <= n,
                n == changes@.len(),
                self.text@ == spec_apply_changes(old(self).text@, changes@.subrange(0, ci as int)),
                self.uri == old(self).uri,
                self.language_id == old(self).language_id,
                self.version == (if ci > 0 {
                    version
                } else {
                    old(self).version
                }),
            decreases n - ci,
        {
            let ghost tcur = self.text@;
            let ghost prefix = changes@.subrange(0, ci as int);
            let change = &changes[ci];
            proof {
                assert(changes@.subrange(0, ci as int + 1) =~= prefix.push(changes@[ci as int]));
                lemma_apply_changes_push(old(self).text@, prefix, changes@[ci as int]);
            }
            if FullTextDocument::is_incremental(change) {
                let range = get_wellformed_range(change.range.unwrap());
                let s0 = self.offset_at(range.start);
                let e0 = self.offset_at(range.end);
                proof {
                    lemma_offset_at_bounds(
                        tcur,
                        range.start.line as int,
                        range.start.character as int,
                    );
                    lemma_offset_at_bounds(tcur, range.end.line as int, range.end.character as int);
                }
                if s0 <= e0 {
                    self.apply_incremental(s0, e0, &change.text);
                } else {
                    self.apply_incremental(e0, s0, &change.text);
                }
            } else if FullTextDocument::is_full(change) {
                self.text = change.text.clone();
                self.line_offset = None;
            }
            self.version = version;
            ci += 1;
        }
        proof {
            assert(changes@.subrange(0, n as int) =~= changes@);
        }
    }
}

/// A run of incremental edits leaves the same text as one full replacement
/// that carries the text they produce.
pub proof fn lemma_edits_equal_full_replacement(
    t: Seq<char>,
    cs: Seq<TextDocumentContentChangeEvent>,
    full: TextDocumentContentChangeEvent,
)
    requires
        full.range is None,
        full.range_length is None,
        full.text@ == spec_apply_changes(t, cs),
    ensures
        spec_apply_changes(t, seq![full]) == spec_apply_changes(t, cs),
{
    assert(seq![full][0] == full);
    assert(seq![full].drop_first() =~= Seq::<TextDocumentContentChangeEvent>::empty());
    assert(spec_apply_changes(
        spec_apply_change(t, full),
        Seq::<TextDocumentContentChangeEvent>::empty(),
    ) == spec_apply_change(t, full));
    assert(spec_apply_changes(t, seq![full]) == spec_apply_change(t, full));
}

} // verus!
