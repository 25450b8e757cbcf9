//! The definition index: every tracked file's definitions, partitioned by
//! file so that re-indexing one file swaps its whole slice and touches no
//! other, with exact-key lookup, identifier listing and hover-detail
//! rendering over the aggregate.
use vstd::prelude::*;
use crate::definition::{Definition, esc_pipes, escaped_of, first_flag, spec_flag_candidates};
use crate::textutil::str_eq;
use crate::config::contains_str;

verus! {

broadcast use vstd::seq::group_seq_axioms;

/// The definitions of one tracked file.
pub struct FileSlice {
    pub file_path: String,
    pub definitions: Vec<Definition>,
}

/// All definitions, grouped by the file they came from. At most one slice
/// per file.
pub struct DefinitionIndex {
    pub files: Vec<FileSlice>,
}

/// The definitions of all slices from position `i` on, flattened in slice
/// order.
pub open spec fn defs_of(files: Seq<FileSlice>, i: int) -> Seq<Definition>
    decreases files.len() - i,
{
    if i < 0 || i >= files.len() {
        Seq::empty()
    } else {
        files[i].definitions@ + defs_of(files, i + 1)
    }
}

/// The position of the first slice of `path` at or after `i`.
pub open spec fn spec_find_slice_from(files: Seq<FileSlice>, path: Seq<char>, i: int) -> Option<
    int,
>
    decreases files.len() - i,
{
    if i < 0 || i >= files.len() {
        None
    } else if files[i].file_path@ == path {
        Some(i)
    } else {
        spec_find_slice_from(files, path, i + 1)
    }
}

/// The matching definitions among `defs` from position `i` on: those
/// whose identifier is `key`, in encounter order.
pub open spec fn matching_from(defs: Seq<Definition>, key: Seq<char>, i: int) -> Seq<Definition>
    decreases defs.len() - i,
{
    if i < 0 || i >= defs.len() {
        Seq::empty()
    } else if defs[i].spec_identifier() == key {
        seq![defs[i]] + matching_from(defs, key, i + 1)
    } else {
        matching_from(defs, key, i + 1)
    }
}

/// Whether any definition from position `i` on carries a language.
pub open spec fn any_language(defs: Seq<Definition>, i: int) -> bool
    decreases defs.len() - i,
{
    if i < 0 || i >= defs.len() {
        false
    } else {
        (defs[i].spec_language() is Some) || any_language(defs, i + 1)
    }
}

/// The flag a definition's language resolves to, if any.
pub open spec fn spec_flag_result(d: Definition) -> Option<Seq<char>> {
    match d.spec_language() {
        Some(l) => first_flag(spec_flag_candidates(l), 0),
        None => None,
    }
}

/// Whether any definition from position `i` on resolves to a flag.
pub open spec fn any_flag(defs: Seq<Definition>, i: int) -> bool
    decreases defs.len() - i,
{
    if i < 0 || i >= defs.len() {
        false
    } else {
        (spec_flag_result(defs[i]) is Some) || any_flag(defs, i + 1)
    }
}

/// The value of a definition as it stands in a table cell.
pub open spec fn spec_printable(d: Definition) -> Seq<char> {
    esc_pipes(escaped_of(d.value@))
}

/// One rendered table row: flag, language and value cells when the table
/// carries metadata columns, a single value cell otherwise. A language
/// without a flag falls back to a placeholder glyph.
pub open spec fn spec_row(d: Definition, tagged: bool) -> Seq<char> {
    if tagged {
        (match spec_flag_result(d) {
            Some(f) => f,
            None => "\u{1F3F4}"@,
        }) + "|**"@ + (match d.spec_language() {
            Some(l) => l,
            None => Seq::<char>::empty(),
        }) + "**|"@ + spec_printable(d)
    } else {
        "|"@ + spec_printable(d)
    }
}

/// The rendered rows from position `i` on, joined by line feeds.
pub open spec fn spec_rows(defs: Seq<Definition>, tagged: bool, i: int) -> Seq<char>
    decreases defs.len() - i,
{
    if i < 0 || i >= defs.len() {
        Seq::empty()
    } else if i == defs.len() - 1 {
        spec_row(defs[i], tagged)
    } else {
        spec_row(defs[i], tagged) + seq!['\n'] + spec_rows(defs, tagged, i + 1)
    }
}

/// The rendered detail for the definitions matching a key: a metadata
/// table when any of them carries a language or flag, a plain value
/// table otherwise; nothing when nothing matches.
pub open spec fn spec_detail(defs: Seq<Definition>, key: Seq<char>) -> Option<Seq<char>> {
    let ms = matching_from(defs, key, 0);
    if ms.len() == 0 {
        None
    } else {
        let tagged = any_language(ms, 0) || any_flag(ms, 0);
        let header = if tagged {
            "flag|language|translation\n-|-|-"@
        } else {
            "|translation|\n|-"@
        };
        Some(header + seq!['\n'] + spec_rows(ms, tagged, 0))
    }
}

/// The identifiers of `defs`, deduplicated keeping first occurrences,
/// scanned from `i` with `acc` already listed.
pub open spec fn idents_acc(defs: Seq<Definition>, acc: Seq<Seq<char>>, i: int) -> Seq<Seq<char>>
    decreases defs.len() - i,
{
    if i < 0 || i >= defs.len() {
        acc
    } else {
        let id = defs[i].spec_identifier();
        let acc2 = if acc.contains(id) {
            acc
        } else {
            acc.push(id)
        };
        idents_acc(defs, acc2, i + 1)
    }
}

/// The distinct identifiers of `defs`, in first-occurrence order.
pub open spec fn spec_identifiers(defs: Seq<Definition>) -> Seq<Seq<char>> {
    idents_acc(defs, Seq::empty(), 0)
}

/// A first find reports the first matching slice, and everything before
/// it differs.
pub proof fn lemma_find_slice_in_range(files: Seq<FileSlice>, path: Seq<char>, i: int)
    requires
        0 <= i,
    ensures
        spec_find_slice_from(files, path, i) matches Some(j) ==> i <= j < files.len()
            && files[j].file_path@ == path && (forall|k: int|
            i <= k < j ==> (#[trigger] files[k]).file_path@ != path),
        spec_find_slice_from(files, path, i) is None ==> forall|k: int|
            i <= k < files.len() ==> (#[trigger] files[k]).file_path@ != path,
    decreases files.len() - i,
{
    if i >= files.len() {
    } else if files[i].file_path@ == path {
    } else {
        lemma_find_slice_in_range(files, path, i + 1);
    }
}

/// Two reindex rounds for one file leave exactly the later round's
/// definitions in that file's slice and touch no other slice: whatever
/// the interleaving of whole-slice swaps, a reader sees all of one round,
/// never a mixture.
pub proof fn lemma_last_write_wins(
    files0: Seq<FileSlice>,
    files1: Seq<FileSlice>,
    files2: Seq<FileSlice>,
    path: Seq<char>,
    a: FileSlice,
    b: FileSlice,
)
    requires
        a.file_path@ == path,
        b.file_path@ == path,
        files1 == (match spec_find_slice_from(files0, path, 0) {
            Some(i) => files0.update(i, a),
            None => files0.push(a),
        }),
        files2 == (match spec_find_slice_from(files1, path, 0) {
            Some(i) => files1.update(i, b),
            None => files1.push(b),
        }),
    ensures
        ({
            let i = (match spec_find_slice_from(files0, path, 0) {
                Some(i) => i,
                None => files0.len() as int,
            });
            &&& 0 <= i < files2.len()
            &&& files2[i] == b
            &&& forall|k: int|
                0 <= k < files2.len() && k != i ==> k < files0.len() && #[trigger] files2[k]
                    == files0[k]
        }),
{
    lemma_find_slice_in_range(files0, path, 0);
    match spec_find_slice_from(files0, path, 0) {
        Some(i) => {
            assert(files1 == files0.update(i, a));
            lemma_find_slice_in_range(files1, path, 0);
            assert(files1[i].file_path@ == path);
            match spec_find_slice_from(files1, path, 0) {
                Some(j) => {
                    assert(j <= i) by {
                        if j > i {
                            assert(files1[i].file_path@ != path);
                        }
                    }
                    assert(j >= i) by {
                        if j < i {
                            assert(files1[j] == files0[j]);
                            assert(files0[j].file_path@ != path);
                        }
                    }
                    assert(files2 == files1.update(i, b));
                },
                None => {
                    assert(files1[i].file_path@ != path);
                },
            }
        },
        None => {
            assert(files1 == files0.push(a));
            lemma_find_slice_in_range(files1, path, 0);
            let l = files0.len() as int;
            assert(files1[l].file_path@ == path);
            match spec_find_slice_from(files1, path, 0) {
                Some(j) => {
                    assert(j >= l) by {
                        if j < l {
                            assert(files1[j] == files0[j]);
                            assert(files0[j].file_path@ != path);
                        }
                    }
                    assert(j == l);
                    assert(files2 == files1.update(l, b));
                },
                None => {
                    assert(files1[l].file_path@ != path);
                },
            }
        },
    }
}

/// One rendered table row.
fn render_row(d: &Definition, tagged: bool) -> (r: String)
    ensures
        r@ == spec_row(*d, tagged),
{
    let printable = d.get_printable_value();
    if tagged {
        let flag = match d.get_flag() {
            Some(f) => f,
            None => String::from_str("\u{1F3F4}"),
        };
        let lang = match d.get_language() {
            Some(l) => l.clone(),
            None => String::new(),
        };
        let r = flag.concat("|**").concat(lang.as_str()).concat("**|").concat(printable.as_str());
        proof {
            assert(r@ =~= spec_row(*d, tagged));
        }
        r
    } else {
        let r = String::from_str("|").concat(printable.as_str());
        proof {
            assert(r@ =~= spec_row(*d, tagged));
        }
        r
    }
}

impl DefinitionIndex {
    /// An index with no files.
    pub fn new() -> (r: DefinitionIndex)
        ensures
            r.files@.len() == 0,
    {
        DefinitionIndex { files: Vec::new() }
    }

    /// The position of the slice of `path`, if the file is tracked.
    pub open spec fn spec_find_slice(&self, path: Seq<char>) -> Option<int> {
        spec_find_slice_from(self.files@, path, 0)
    }

    fn find_slice(&self, path: &String) -> (r: Option<usize>)
        ensures
            (r is Some) == (self.spec_find_slice(path@) is Some),
            r matches Some(i) ==> i as int == self.spec_find_slice(path@)->0 && i
                < self.files@.len(),
    {
        let n = self.files.len();
        let mut i: usize = 0;
        while i < n
            invariant
                0 <= i <= n,
                n == self.files@.len(),
                spec_find_slice_from(self.files@, path@, 0) == spec_find_slice_from(
                    self.files@,
                    path@,
                    i as int,
                ),
            decreases n - i,
        {
            if str_eq(self.files[i].file_path.as_str(), path.as_str()) {
                return Some(i);
            }
            i += 1;
        }
        None
    }

    /// Replace the definitions of one file in a single step: afterwards
    /// the file's slice holds exactly the new definitions, never a
    /// mixture of old and new, and no other file's slice has changed.
    pub fn replace_for_file(&mut self, path: String, definitions: Vec<Definition>)
        ensures
            ({
                let files0 = old(self).files@;
                let files1 = final(self).files@;
                match old(self).spec_find_slice(path@) {
                    Some(i) => files1 == files0.update(
                        i,
                        FileSlice { file_path: path, definitions: definitions },
                    ),
                    None => files1 == files0.push(
                        FileSlice { file_path: path, definitions: definitions },
                    ),
                }
            }),
    {
        match self.find_slice(&path) {
            Some(i) => {
                self.files.set(i, FileSlice { file_path: path, definitions });
            },
            None => {
                self.files.push(FileSlice { file_path: path, definitions });
            },
        }
    }

    /// Drop the first slice of a file that left the configured set.
    pub fn remove_file(&mut self, path: &String)
        ensures
            ({
                let files0 = old(self).files@;
                let files1 = final(self).files@;
                match old(self).spec_find_slice(path@) {
                    Some(i) => files1 == files0.subrange(0, i) + files0.subrange(
                        i + 1,
                        files0.len() as int,
                    ),
                    None => files1 == files0,
                }
            }),
    {
        match self.find_slice(path) {
            Some(i) => {
                self.files.remove(i);
            },
            None => {},
        }
    }

    /// All definitions, flattened in slice order.
    fn all_defs(&self) -> (r: Vec<&Definition>)
        ensures
            r@.map_values(|d: &Definition| *d) == defs_of(self.files@, 0),
    {
        let ghost files = self.files@;
        let mut out: Vec<&Definition> = Vec::new();
        let n = self.files.len();
        let mut si: usize = 0;
        proof {
            assert(out@.map_values(|d: &Definition| *d) =~= Seq::<Definition>::empty());
            assert(Seq::<Definition>::empty() + defs_of(files, 0) =~= defs_of(files, 0));
        }
        while si < n
            invariant
                0 <= si <= n,
                n == files.len(),
                files == self.files@,
                defs_of(files, 0) == out@.map_values(|d: &Definition| *d) + defs_of(
                    files,
                    si as int,
                ),
            decreases n - si,
        {
            let slice_defs = &self.files[si].definitions;
            let m = slice_defs.len();
            let mut di: usize = 0;
            proof {
                assert(defs_of(files, si as int) == files[si as int].definitions@ + defs_of(
                    files,
                    si as int + 1,
                ));
            }
            while di < m
                invariant
                    0 <= di <= m,
                    0 <= si < n,
                    n == files.len(),
                    files == self.files@,
                    m == files[si as int].definitions@.len(),
                    slice_defs == &self.files@[si as int].definitions,
                    defs_of(files, 0) == out@.map_values(|d: &Definition| *d) + files[
                        si as int
                    ].definitions@.subrange(di as int, m as int) + defs_of(files, si as int + 1),
                decreases m - di,
            {
                let ghost prev = out@;
                out.push(&slice_defs[di]);
                proof {
                    broadcast use Seq::lemma_push_map_commute;

                    let sd = files[si as int].definitions@;
                    assert(out@ == prev.push(out@[prev.len() as int]));
                    assert(*out@[prev.len() as int] == sd[di as int]);
                    assert(out@.map_values(|d: &Definition| *d) =~= prev.map_values(
                        |d: &Definition| *d,
                    ).push(sd[di as int]));
                    assert(sd.subrange(di as int, m as int) =~= seq![sd[di as int]] + sd.subrange(
                        di as int + 1,
                        m as int,
                    ));
                    assert((prev.map_values(|d: &Definition| *d) + (seq![sd[di as int]]
                        + sd.subrange(di as int + 1, m as int))) =~= (prev.map_values(
                        |d: &Definition| *d,
                    ).push(sd[di as int]) + sd.subrange(di as int + 1, m as int)));
                    assert((prev.map_values(|d: &Definition| *d) + seq![sd[di as int]]
                        + sd.subrange(di as int + 1, m as int)) + defs_of(files, si as int + 1)
                        =~= prev.map_values(|d: &Definition| *d) + (seq![sd[di as int]]
                        + sd.subrange(di as int + 1, m as int) + defs_of(files, si as int + 1)));
                }
                di += 1;
            }
            proof {
                let sd = files[si as int].definitions@;
                assert(sd.subrange(m as int, m as int) =~= Seq::<Definition>::empty());
                assert(out@.map_values(|d: &Definition| *d) + Seq::<Definition>::empty() + defs_of(
                    files,
                    si as int + 1,
                ) =~= out@.map_values(|d: &Definition| *d) + defs_of(files, si as int + 1));
            }
            si += 1;
        }
        proof {
            assert(out@.map_values(|d: &Definition| *d) + defs_of(files, n as int)
                =~= out@.map_values(|d: &Definition| *d));
        }
        out
    }

    /// All definitions whose identifier equals `key`, in encounter order.
    pub fn lookup_exact(&self, key: &String) -> (r: Vec<&Definition>)
        ensures
            r@.map_values(|d: &Definition| *d) == matching_from(defs_of(self.files@, 0), key@, 0),
    {
        let all = self.all_defs();
        let ghost defs = defs_of(self.files@, 0);
        let mut out: Vec<&Definition> = Vec::new();
        let n = all.len();
        let mut i: usize = 0;
        proof {
            assert(out@.map_values(|d: &Definition| *d) =~= Seq::<Definition>::empty());
        }
        while i < n
            invariant
                0 <= i <= n,
                n == all@.len(),
                all@.map_values(|d: &Definition| *d) == defs,
                matching_from(defs, key@, 0) == out@.map_values(|d: &Definition| *d)
                    + matching_from(defs, key@, i as int),
            decreases n - i,
        {
            proof {
                assert(*all@[i as int] == defs[i as int]);
            }
            if all[i].matches_key(key) {
                let ghost prev = out@;
                out.push(all[i]);
                proof {
                    broadcast use Seq::lemma_push_map_commute;

                    assert(out@ == prev.push(out@[prev.len() as int]));
                    assert(out@.map_values(|d: &Definition| *d) =~= prev.map_values(
                        |d: &Definition| *d,
                    ).push(defs[i as int]));
                    assert(matching_from(defs, key@, i as int) == seq![defs[i as int]]
                        + matching_from(defs, key@, i as int + 1));
                    assert(prev.map_values(|d: &Definition| *d) + (seq![defs[i as int]]
                        + matching_from(defs, key@, i as int + 1)) =~= out@.map_values(
                        |d: &Definition| *d,
                    ) + matching_from(defs, key@, i as int + 1));
                }
            }
            i += 1;
        }
        proof {
            assert(out@.map_values(|d: &Definition| *d) + Seq::<Definition>::empty()
                =~= out@.map_values(|d: &Definition| *d));
        }
        out
    }

    /// The distinct externally visible identifiers of all definitions, in
    /// first-occurrence order: the completion candidates.
    pub fn list_identifiers(&self) -> (r: Vec<String>)
        ensures
            r@.map_values(|s: String| s@) == spec_identifiers(defs_of(self.files@, 0)),
    {
        broadcast use Seq::lemma_push_map_commute;

        let all = self.all_defs();
        let ghost defs = defs_of(self.files@, 0);
        let mut out: Vec<String> = Vec::new();
        let n = all.len();
        let mut i: usize = 0;
        proof {
            assert(out@.map_values(|s: String| s@) =~= Seq::<Seq<char>>::empty());
        }
        while i < n
            invariant
                0 <= i <= n,
                n == all@.len(),
                all@.map_values(|d: &Definition| *d) == defs,
                spec_identifiers(defs) == idents_acc(
                    defs,
                    out@.map_values(|s: String| s@),
                    i as int,
                ),
            decreases n - i,
        {
            proof {
                assert(*all@[i as int] == defs[i as int]);
            }
            let id = all[i].get_identifier();
            let seen = contains_str(&out, id.as_str());
            if !seen {
                let ghost prev = out@;
                out.push(id.clone());
                proof {
                    assert(out@ == prev.push(out@[prev.len() as int]));
                    assert(out@.map_values(|s: String| s@) =~= prev.map_values(
                        |s: String| s@,
                    ).push(id@));
                }
            }
            i += 1;
        }
        out
    }

    /// Gets details about the definitions answering to one identifier, as
    /// rows of a table: flag, language and translation columns when any
    /// matching definition carries such metadata, a single translation
    /// column otherwise.
    pub fn get_definition_detail_by_key(&self, key: &String) -> (r: Option<String>)
        ensures
            (r is Some) == (spec_detail(defs_of(self.files@, 0), key@) is Some),
            r matches Some(s) ==> s@ == spec_detail(defs_of(self.files@, 0), key@)->0,
    {
        let ms = self.lookup_exact(key);
        let ghost msv = matching_from(defs_of(self.files@, 0), key@, 0);
        let n = ms.len();
        if n == 0 {
            return None;
        }
        // Does any matching definition carry a language, or a flag?
        let mut has_language = false;
        let mut has_flag = false;
        let mut i: usize = 0;
        while i < n
            invariant
                0 <= i <= n,
                n == ms@.len(),
                ms@.map_values(|d: &Definition| *d) == msv,
                has_language ==> any_language(msv, 0),
                !has_language ==> any_language(msv, 0) == any_language(msv, i as int),
                has_flag ==> any_flag(msv, 0),
                !has_flag ==> any_flag(msv, 0) == any_flag(msv, i as int),
            decreases n - i,
        {
            proof {
                assert(*ms@[i as int] == msv[i as int]);
            }
            if !has_language {
                if ms[i].get_language().is_some() {
                    has_language = true;
                }
            }
            if !has_flag {
                if ms[i].get_flag().is_some() {
                    has_flag = true;
                }
            }
            i += 1;
        }
        let tagged = has_flag || has_language;
        proof {
            assert(tagged == (any_language(msv, 0) || any_flag(msv, 0)));
        }
        // Render the rows in encounter order.
        let mut body = String::new();
        let mut ri: usize = 0;
        proof {
            assert(body@ =~= Seq::<char>::empty());
        }
        while ri < n
            invariant
                0 <= ri <= n,
                n == ms@.len(),
                n >= 1,
                ms@.map_values(|d: &Definition| *d) == msv,
                tagged == (any_language(msv, 0) || any_flag(msv, 0)),
                spec_rows(msv, tagged, 0) == body@ + (if ri < n {
                    (if ri > 0 {
                        seq!['\n']
                    } else {
                        Seq::<char>::empty()
                    }) + spec_rows(msv, tagged, ri as int)
                } else {
                    Seq::<char>::empty()
                }),
            decreases n - ri,
        {
            proof {
                assert(*ms@[ri as int] == msv[ri as int]);
            }
            if ri > 0 {
                body.append("\n");
                proof {
                    reveal_strlit("\n");
                }
            }
            let row = render_row(ms[ri], tagged);
            body.append(row.as_str());
            proof {
                reveal_strlit("\n");
                if ri as int == n - 1 {
                    assert(spec_rows(msv, tagged, ri as int) == spec_row(
                        msv[ri as int],
                        tagged,
                    ));
                } else {
                    assert(spec_rows(msv, tagged, ri as int) == spec_row(msv[ri as int], tagged)
                        + seq!['\n'] + spec_rows(msv, tagged, ri as int + 1));
                }
                assert(spec_rows(msv, tagged, 0) == body@ + (if ri + 1 < n {
                    seq!['\n'] + spec_rows(msv, tagged, ri as int + 1)
                } else {
                    Seq::<char>::empty()
                }));
            }
            ri += 1;
        }
        let header = if tagged {
            "flag|language|translation\n-|-|-"
        } else {
            "|translation|\n|-"
        };
        let result = String::from_str(header).concat("\n").concat(body.as_str());
        proof {
            reveal_strlit("\n");
            assert(result@ =~= spec_detail(defs_of(self.files@, 0), key@)->0);
        }
        Some(result)
    }
}

} // verus!
