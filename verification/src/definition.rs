//! One resolved translation definition: its reconstructed key, the
//! externally visible identifier, the translated value, the file it came
//! from, and the metadata the details pattern extracted from its key.
use vstd::prelude::*;
use crate::textutil::str_eq;

verus! {

broadcast use vstd::seq::group_seq_axioms;

/// The file a definition came from, and the language its file name
/// encodes, when the configuration extracts one.
#[derive(Clone)]
pub struct TranslationFile {
    pub path: String,
    pub language: Option<String>,
}

/// One translation entry: `key` is the dotted, bracket-indexed path of the
/// value in its file; `cleaned_key`, when present, is the externally
/// visible identifier and takes precedence over `key`; `extra_data` maps
/// the names of the details pattern's capture groups to what they matched.
pub struct Definition {
    pub key: String,
    pub cleaned_key: Option<String>,
    pub file: Option<TranslationFile>,
    pub extra_data: Vec<(String, String)>,
    pub value: String,
}

/// The first value stored under `name`, searched from position `i`.
pub open spec fn lookup_from(
    entries: Seq<(Seq<char>, Seq<char>)>,
    name: Seq<char>,
    i: int,
) -> Option<Seq<char>>
    decreases entries.len() - i,
{
    if i < 0 || i >= entries.len() {
        None
    } else if entries[i].0 == name {
        Some(entries[i].1)
    } else {
        lookup_from(entries, name, i + 1)
    }
}

/// The first value stored under `name` in an association list.
pub open spec fn assoc_lookup(entries: Seq<(Seq<char>, Seq<char>)>, name: Seq<char>) -> Option<
    Seq<char>,
> {
    lookup_from(entries, name, 0)
}

/// The uppercase form of a text, as the standard library computes it.
pub uninterp spec fn upper_of(s: Seq<char>) -> Seq<char>;

/// Relies on str::to_uppercase: the uppercase form depends on the
/// characters alone.
#[verifier::external_body]
fn to_uppercase(s: &str) -> (r: String)
    ensures
        r@ == upper_of(s@),
{
    s.to_uppercase()
}

/// The flag emoji a country code or country name resolves to, if any.
pub uninterp spec fn flag_of(country: Seq<char>) -> Option<Seq<char>>;

/// Relies on country_emoji::flag: resolves a country code or name to its
/// flag emoji by table lookup, a function of the text alone.
#[verifier::external_body]
fn flag_lookup(country: &str) -> (r: Option<String>)
    ensures
        (r is Some) == (flag_of(country@) is Some),
        r matches Some(f) ==> f@ == flag_of(country@)->0,
{
    country_emoji::flag(country)
}

/// The text with control and other non-printable characters written as
/// backslash escapes, as the standard library renders it.
pub uninterp spec fn escaped_of(s: Seq<char>) -> Seq<char>;

/// Relies on str::escape_debug: the escaped form depends on the
/// characters alone.
#[verifier::external_body]
fn escape_debug_str(s: &str) -> (r: String)
    ensures
        r@ == escaped_of(s@),
{
    s.escape_debug().to_string()
}

/// The parts of `s[i..]` between dashes, the part under construction
/// given first.
pub open spec fn split_acc(s: Seq<char>, i: int, cur: Seq<char>) -> Seq<Seq<char>>
    decreases s.len() - i,
{
    if i < 0 || i >= s.len() {
        seq![cur]
    } else if s[i] == '-' {
        seq![cur] + split_acc(s, i + 1, Seq::empty())
    } else {
        split_acc(s, i + 1, cur.push(s[i]))
    }
}

/// The dash-separated parts of a text; an empty text has one empty part.
pub open spec fn split_dash(s: Seq<char>) -> Seq<Seq<char>> {
    split_acc(s, 0, Seq::empty())
}

/// Split a text on dashes.
fn split_dash_exec(s: &str) -> (r: Vec<String>)
    ensures
        r@.map_values(|x: String| x@) == split_dash(s@),
{
    broadcast use Seq::lemma_push_map_commute;

    let n = s.unicode_len();
    let mut out: Vec<String> = Vec::new();
    let mut cur = String::new();
    let mut i: usize = 0;
    proof {
        assert(out@.map_values(|x: String| x@) =~= Seq::<Seq<char>>::empty());
        assert(split_dash(s@) =~= Seq::<Seq<char>>::empty() + split_acc(s@, 0, Seq::empty()));
    }
    while i < n
        invariant
            0 <= i <= n,
            n == s@.len(),
            split_dash(s@) == out@.map_values(|x: String| x@) + split_acc(s@, i as int, cur@),
        decreases n - i,
    {
        let c = s.get_char(i);
        if c == '-' {
            let ghost prev_out = out@;
            let ghost prev_cur = cur@;
            out.push(cur);
            cur = String::new();
            proof {
                assert(out@ == prev_out.push(out@[prev_out.len() as int]));
                assert(out@[prev_out.len() as int]@ == prev_cur);
                assert(split_acc(s@, i as int, prev_cur) == seq![prev_cur] + split_acc(
                    s@,
                    i as int + 1,
                    Seq::empty(),
                ));
                assert(out@.map_values(|x: String| x@) =~= prev_out.map_values(|x: String| x@)
                    + seq![prev_cur]);
                assert((prev_out.map_values(|x: String| x@) + seq![prev_cur]) + split_acc(
                    s@,
                    i as int + 1,
                    Seq::empty(),
                ) =~= prev_out.map_values(|x: String| x@) + (seq![prev_cur] + split_acc(
                    s@,
                    i as int + 1,
                    Seq::empty(),
                )));
            }
        } else {
            let ghost prev_cur = cur@;
            cur.append(s.substring_char(i, i + 1));
            proof {
                assert(s@.subrange(i as int, i as int + 1) =~= seq![s@[i as int]]);
                assert(cur@ =~= prev_cur.push(s@[i as int]));
            }
        }
        i += 1;
    }
    let ghost prev_out = out@;
    let ghost prev_cur = cur@;
    out.push(cur);
    proof {
        assert(out@ == prev_out.push(out@[prev_out.len() as int]));
        assert(out@[prev_out.len() as int]@ == prev_cur);
        assert(split_acc(s@, n as int, prev_cur) == seq![prev_cur]);
        assert(out@.map_values(|x: String| x@) =~= prev_out.map_values(|x: String| x@)
            + seq![prev_cur]);
    }
    out
}

/// The candidate country texts tried for a language tag, most specific
/// first: the tag itself in uppercase last before its dash-separated
/// parts, with `US` tried first for English.
pub open spec fn spec_flag_candidates(lang: Seq<char>) -> Seq<Seq<char>> {
    let parts = split_dash(lang).map_values(|p: Seq<char>| upper_of(p));
    let with_lang = parts.push(upper_of(lang));
    let with_us = if upper_of(lang) == "EN"@ {
        with_lang.push("US"@)
    } else {
        with_lang
    };
    with_us.reverse()
}

/// The flag of the first candidate that resolves, searched from `i`.
pub open spec fn first_flag(cands: Seq<Seq<char>>, i: int) -> Option<Seq<char>>
    decreases cands.len() - i,
{
    if i < 0 || i >= cands.len() {
        None
    } else if flag_of(cands[i]) is Some {
        flag_of(cands[i])
    } else {
        first_flag(cands, i + 1)
    }
}

/// The text of `s` with every vertical bar escaped by a backslash.
pub open spec fn esc_pipes(s: Seq<char>) -> Seq<char>
    decreases s.len(),
{
    if s.len() == 0 {
        Seq::empty()
    } else if s[0] == '|' {
        seq!['\\', '|'] + esc_pipes(s.drop_first())
    } else {
        seq![s[0]] + esc_pipes(s.drop_first())
    }
}

proof fn lemma_esc_pipes_concat(a: Seq<char>, b: Seq<char>)
    ensures
        esc_pipes(a + b) == esc_pipes(a) + esc_pipes(b),
    decreases a.len(),
{
    if a.len() == 0 {
        assert(a + b =~= b);
        assert(esc_pipes(a) + esc_pipes(b) =~= esc_pipes(b));
    } else {
        assert((a + b).drop_first() =~= a.drop_first() + b);
        lemma_esc_pipes_concat(a.drop_first(), b);
        assert((a + b)[0] == a[0]);
        if a[0] == '|' {
            assert(seq!['\\', '|'] + (esc_pipes(a.drop_first()) + esc_pipes(b)) =~= (seq![
                '\\',
                '|',
            ] + esc_pipes(a.drop_first())) + esc_pipes(b));
        } else {
            assert(seq![a[0]] + (esc_pipes(a.drop_first()) + esc_pipes(b)) =~= (seq![a[0]]
                + esc_pipes(a.drop_first())) + esc_pipes(b));
        }
    }
}

/// Escape every vertical bar, so the text can stand in a table cell.
fn escape_pipes(s: &str) -> (r: String)
    ensures
        r@ == esc_pipes(s@),
{
    let n = s.unicode_len();
    let mut r = String::new();
    let mut i: usize = 0;
    proof {
        assert(s@.subrange(0, 0) =~= Seq::<char>::empty());
    }
    while i < n
        invariant
            0 <= i <= n,
            n == s@.len(),
            r@ == esc_pipes(s@.subrange(0, i as int)),
        decreases n - i,
    {
        let c = s.get_char(i);
        proof {
            assert(s@.subrange(0, i as int + 1) =~= s@.subrange(0, i as int) + seq![s@[i as int]]);
            lemma_esc_pipes_concat(s@.subrange(0, i as int), seq![s@[i as int]]);
            assert(seq![s@[i as int]].drop_first() =~= Seq::<char>::empty());
            assert(esc_pipes(Seq::<char>::empty()) == Seq::<char>::empty());
            if s@[i as int] == '|' {
                assert(esc_pipes(seq![s@[i as int]]) =~= seq!['\\', '|']);
            } else {
                assert(esc_pipes(seq![s@[i as int]]) =~= seq![s@[i as int]]);
            }
        }
        if c == '|' {
            proof {
                reveal_strlit("\\|");
            }
            r.append("\\|");
        } else {
            r.append(s.substring_char(i, i + 1));
            proof {
                assert(s@.subrange(i as int, i as int + 1) =~= seq![s@[i as int]]);
            }
        }
        proof {
            assert(r@ =~= esc_pipes(s@.subrange(0, i as int + 1)));
        }
        i += 1;
    }
    proof {
        assert(s@.subrange(0, n as int) =~= s@);
    }
    r
}

impl Definition {
    /// The metadata entries by their character contents.
    pub open spec fn extra_view(&self) -> Seq<(Seq<char>, Seq<char>)> {
        self.extra_data@.map_values(|p: (String, String)| (p.0@, p.1@))
    }

    /// The externally visible identifier: the cleaned key when present,
    /// the key otherwise.
    pub open spec fn spec_identifier(&self) -> Seq<char> {
        match self.cleaned_key {
            Some(ck) => ck@,
            None => self.key@,
        }
    }

    /// The language of the definition: the `language` metadata entry when
    /// the details pattern captured one, else the language encoded in the
    /// file name.
    pub open spec fn spec_language(&self) -> Option<Seq<char>> {
        match assoc_lookup(self.extra_view(), "language"@) {
            Some(l) => Some(l),
            None => match self.file {
                Some(f) => match f.language {
                    Some(fl) => Some(fl@),
                    None => None,
                },
                None => None,
            },
        }
    }

    /// Returns the `cleaned_key`, or the `key` if it does not exist.
    pub fn get_identifier(&self) -> (r: &String)
        ensures
            r@ == self.spec_identifier(),
    {
        match &self.cleaned_key {
            Some(ck) => ck,
            None => &self.key,
        }
    }

    /// Whether this definition answers to the given identifier.
    pub fn matches_key(&self, key: &String) -> (r: bool)
        ensures
            r == (self.spec_identifier() == key@),
    {
        str_eq(self.get_identifier().as_str(), key.as_str())
    }

    /// The language this definition is in, when one is known.
    pub fn get_language(&self) -> (r: Option<&String>)
        ensures
            (r is Some) == (self.spec_language() is Some),
            r matches Some(l) ==> l@ == self.spec_language()->0,
    {
        let ghost entries = self.extra_view();
        let nentries = self.extra_data.len();
        let mut i: usize = 0;
        while i < nentries
            invariant
                0 <= i <= nentries,
                nentries == self.extra_data@.len(),
                entries == self.extra_view(),
                assoc_lookup(entries, "language"@) == lookup_from(entries, "language"@, i as int),
            decreases nentries - i,
        {
            proof {
                assert(entries[i as int].0 == self.extra_data@[i as int].0@);
            }
            if str_eq(self.extra_data[i].0.as_str(), "language") {
                proof {
                    assert(entries[i as int].1 == self.extra_data@[i as int].1@);
                }
                return Some(&self.extra_data[i].1);
            }
            i += 1;
        }
        match &self.file {
            Some(f) => match &f.language {
                Some(fl) => Some(fl),
                None => None,
            },
            None => None,
        }
    }

    /// Returns a flag emoji based on the definition's language: the tag's
    /// dash-separated parts and the tag itself are tried in uppercase,
    /// most specific first, with `US` tried first for English.
    pub fn get_flag(&self) -> (r: Option<String>)
        ensures
            (r is Some) == (match self.spec_language() {
                Some(l) => first_flag(spec_flag_candidates(l), 0) is Some,
                None => false,
            }),
            r matches Some(f) ==> f@ == first_flag(
                spec_flag_candidates(self.spec_language()->0),
                0,
            )->0,
    {
        broadcast use Seq::lemma_push_map_commute;

        let language = match self.get_language() {
            Some(l) => l,
            None => {
                return None;
            },
        };
        let ghost lang = language@;
        let parts = split_dash_exec(language.as_str());
        let mut possible_countries: Vec<String> = Vec::new();
        let nparts = parts.len();
        let mut pi: usize = 0;
        while pi < nparts
            invariant
                0 <= pi <= nparts,
                nparts == parts@.len(),
                parts@.map_values(|x: String| x@) == split_dash(lang),
                possible_countries@.map_values(|x: String| x@) == split_dash(lang).map_values(
                    |p: Seq<char>| upper_of(p),
                ).subrange(0, pi as int),
            decreases nparts - pi,
        {
            let ghost prev = possible_countries@;
            let up = to_uppercase(parts[pi].as_str());
            possible_countries.push(up);
            proof {
                assert(possible_countries@ == prev.push(
                    possible_countries@[prev.len() as int],
                ));
                assert(possible_countries@[prev.len() as int]@ == upper_of(
                    parts@[pi as int]@,
                ));
                assert(parts@[pi as int]@ == split_dash(lang)[pi as int]);
                assert(split_dash(lang).map_values(|p: Seq<char>| upper_of(p)).subrange(
                    0,
                    pi as int + 1,
                ) =~= split_dash(lang).map_values(|p: Seq<char>| upper_of(p)).subrange(
                    0,
                    pi as int,
                ).push(upper_of(split_dash(lang)[pi as int])));
                assert(possible_countries@.map_values(|x: String| x@) =~= prev.map_values(
                    |x: String| x@,
                ).push(upper_of(split_dash(lang)[pi as int])));
            }
            pi += 1;
        }
        let up_lang = to_uppercase(language.as_str());
        let ghost parts_up = split_dash(lang).map_values(|p: Seq<char>| upper_of(p));
        proof {
            assert(parts_up.subrange(0, parts_up.len() as int) =~= parts_up);
        }
        let ghost prev1 = possible_countries@;
        let is_en = str_eq(up_lang.as_str(), "EN");
        possible_countries.push(up_lang);
        proof {
            assert(possible_countries@ == prev1.push(possible_countries@[prev1.len() as int]));
            assert(possible_countries@.map_values(|x: String| x@) =~= parts_up.push(
                upper_of(lang),
            ));
        }
        if is_en {
            let ghost prev2 = possible_countries@;
            possible_countries.push(String::from_str("US"));
            proof {
                assert(possible_countries@ == prev2.push(
                    possible_countries@[prev2.len() as int],
                ));
                assert(possible_countries@.map_values(|x: String| x@) =~= parts_up.push(
                    upper_of(lang),
                ).push("US"@));
            }
        }
        let ghost unreversed = possible_countries@.map_values(|x: String| x@);
        proof {
            assert(unreversed == (if upper_of(lang) == "EN"@ {
                parts_up.push(upper_of(lang)).push("US"@)
            } else {
                parts_up.push(upper_of(lang))
            }));
            assert(spec_flag_candidates(lang) == unreversed.reverse());
        }
        // Reverse it to prioritise the most specific candidates.
        let ghost cands = spec_flag_candidates(lang);
        let total = possible_countries.len();
        let mut ci: usize = 0;
        while ci < total
            invariant
                0 <= ci <= total,
                total == possible_countries@.len(),
                unreversed == possible_countries@.map_values(|x: String| x@),
                cands == unreversed.reverse(),
                cands.len() == total,
                self.spec_language() == Some(lang),
                cands == spec_flag_candidates(lang),
                first_flag(cands, 0) == first_flag(cands, ci as int),
            decreases total - ci,
        {
            let country = &possible_countries[total - 1 - ci];
            proof {
                assert(cands[ci as int] == unreversed[total - 1 - ci]);
                assert(unreversed[total - 1 - ci] == possible_countries@[total - 1 - ci]@);
            }
            let flag = flag_lookup(country.as_str());
            if flag.is_some() {
                proof {
                    assert(first_flag(cands, ci as int) == flag_of(cands[ci as int]));
                }
                return flag;
            }
            ci += 1;
        }
        None
    }

    /// The value as it may stand in one cell of a rendered table: escaped
    /// for display, with vertical bars backslashed.
    pub fn get_printable_value(&self) -> (r: String)
        ensures
            r@ == esc_pipes(escaped_of(self.value@)),
    {
        let escaped = escape_debug_str(self.value.as_str());
        escape_pipes(escaped.as_str())
    }
}

} // verus!
