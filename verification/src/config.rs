//! The deployment configuration: which files hold translations, and the
//! optional patterns that clean keys and extract metadata from keys and
//! file names. Patterns are compiled here, before any file is indexed, so
//! a malformed pattern rejects the configuration instead of silently
//! disabling part of a run.
use vstd::prelude::*;
use crate::patterns::{pattern_compiles, regex_error_message, regex_new};
use crate::textutil::str_eq;

verus! {

broadcast use vstd::seq::group_seq_axioms;

/// Which translation files to index: the glob patterns whose files are
/// indexed and, optionally, patterns whose files are excluded again.
pub struct TranslationFilesConfig {
    pub patterns: Vec<String>,
    pub exclude: Option<Vec<String>>,
}

/// The pattern reading metadata, such as a language tag, out of a
/// translation file's name.
pub struct FileNameConfig {
    pub details: Option<regex::Regex>,
}

/// The patterns applied to reconstructed keys: `details` extracts named
/// metadata, `filter` derives the externally visible identifier.
pub struct KeyConfig {
    pub details: Option<regex::Regex>,
    pub filter: Option<regex::Regex>,
}

/// The whole per-deployment configuration.
pub struct ExtensionConfig {
    pub translation_files: TranslationFilesConfig,
    pub file_name: FileNameConfig,
    pub key: KeyConfig,
}

impl Default for ExtensionConfig {
    /// An empty configuration: no files, no patterns.
    fn default() -> (r: Self)
        ensures
            r.translation_files.patterns@.len() == 0,
            r.translation_files.exclude is None,
            r.file_name.details is None,
            r.key.details is None,
            r.key.filter is None,
    {
        ExtensionConfig {
            translation_files: TranslationFilesConfig { patterns: Vec::new(), exclude: None },
            file_name: FileNameConfig { details: None },
            key: KeyConfig { details: None, filter: None },
        }
    }
}

/// Why a configuration was rejected.
pub struct ConfigError {
    pub message: String,
}

impl ConfigError {
    /// The rejection, readable.
    pub fn message_text(&self) -> (r: &String)
        ensures
            r@ == self.message@,
    {
        &self.message
    }
}

/// An absent pattern always passes; a present one must compile.
pub open spec fn opt_pattern_compiles(src: Option<String>) -> bool {
    match src {
        Some(s) => pattern_compiles(s@),
        None => true,
    }
}

/// Compile an optional pattern; a present pattern that does not compile is
/// an error.
fn compile_opt(src: Option<String>) -> (r: Result<Option<regex::Regex>, ConfigError>)
    ensures
        (r is Ok) == opt_pattern_compiles(src),
        r matches Ok(c) ==> (c is Some) == (src is Some),
{
    match src {
        Some(s) => match regex_new(s.as_str()) {
            Ok(re) => Ok(Some(re)),
            Err(e) => Err(ConfigError { message: regex_error_message(&e) }),
        },
        None => Ok(None),
    }
}

impl ExtensionConfig {
    /// Build a configuration from plain values, compiling the three
    /// optional patterns. A pattern that does not compile rejects the
    /// whole configuration.
    pub fn from_parts(
        patterns: Vec<String>,
        exclude: Option<Vec<String>>,
        file_name_details: Option<String>,
        key_details: Option<String>,
        key_filter: Option<String>,
    ) -> (r: Result<ExtensionConfig, ConfigError>)
        ensures
            (r is Ok) == (opt_pattern_compiles(file_name_details) && opt_pattern_compiles(
                key_details,
            ) && opt_pattern_compiles(key_filter)),
            r matches Ok(c) ==> c.translation_files.patterns == patterns
                && c.translation_files.exclude == exclude && (c.file_name.details is Some) == (
            file_name_details is Some) && (c.key.details is Some) == (key_details is Some) && (
            c.key.filter is Some) == (key_filter is Some),
    {
        let fnd = match compile_opt(file_name_details) {
            Ok(c) => c,
            Err(e) => {
                return Err(e);
            },
        };
        let kd = match compile_opt(key_details) {
            Ok(c) => c,
            Err(e) => {
                return Err(e);
            },
        };
        let kf = match compile_opt(key_filter) {
            Ok(c) => c,
            Err(e) => {
                return Err(e);
            },
        };
        Ok(
            ExtensionConfig {
                translation_files: TranslationFilesConfig { patterns, exclude },
                file_name: FileNameConfig { details: fnd },
                key: KeyConfig { details: kd, filter: kf },
            },
        )
    }
}

/// The included files with the excluded ones removed and duplicates
/// dropped, keeping the first occurrence of each, scanned from `i` with
/// `acc` already selected.
pub open spec fn sel(
    inc: Seq<Seq<char>>,
    exc: Seq<Seq<char>>,
    acc: Seq<Seq<char>>,
    i: int,
) -> Seq<Seq<char>>
    decreases inc.len() - i,
{
    if i < 0 || i >= inc.len() {
        acc
    } else {
        let h = inc[i];
        let acc2 = if exc.contains(h) || acc.contains(h) {
            acc
        } else {
            acc.push(h)
        };
        sel(inc, exc, acc2, i + 1)
    }
}

/// The files selected from an include list against an exclude list:
/// include order kept, excluded files dropped, duplicates dropped.
pub open spec fn spec_selected_files(inc: Seq<Seq<char>>, exc: Seq<Seq<char>>) -> Seq<Seq<char>> {
    sel(inc, exc, Seq::empty(), 0)
}

/// Whether some element of `v` holds the same text as `x`.
pub(crate) fn contains_str(v: &Vec<String>, x: &str) -> (r: bool)
    ensures
        r == v@.map_values(|s: String| s@).contains(x@),
{
    let ghost views = v@.map_values(|s: String| s@);
    let n = v.len();
    let mut i: usize = 0;
    while i < n
        invariant
            0 <= i <= n,
            n == v@.len(),
            views == v@.map_values(|s: String| s@),
            forall|k: int| 0 <= k < i ==> views[k] != x@,
        decreases n - i,
    {
        proof {
            assert(views[i as int] == v@[i as int]@);
        }
        if str_eq(v[i].as_str(), x) {
            proof {
                assert(views.contains(x@)) by {
                    assert(views[i as int] == x@);
                }
            }
            return true;
        }
        i += 1;
    }
    proof {
        if views.contains(x@) {
            let k = choose|k: int| 0 <= k < views.len() && views[k] == x@;
        }
    }
    false
}

/// Select the translation files to index: every included file that is not
/// excluded, each once, in include order.
pub fn select_translation_files(includes: &Vec<String>, excludes: &Vec<String>) -> (r: Vec<String>)
    ensures
        r@.map_values(|s: String| s@) == spec_selected_files(
            includes@.map_values(|s: String| s@),
            excludes@.map_values(|s: String| s@),
        ),
{
    broadcast use Seq::lemma_push_map_commute;

    let ghost inc = includes@.map_values(|s: String| s@);
    let ghost exc = excludes@.map_values(|s: String| s@);
    let mut out: Vec<String> = Vec::new();
    let n = includes.len();
    let mut i: usize = 0;
    proof {
        assert(out@.map_values(|s: String| s@) =~= Seq::<Seq<char>>::empty());
    }
    while i < n
        invariant
            0 <= i <= n,
            n == includes@.len(),
            inc == includes@.map_values(|s: String| s@),
            exc == excludes@.map_values(|s: String| s@),
            spec_selected_files(inc, exc) == sel(inc, exc, out@.map_values(|s: String| s@), i as int),
        decreases n - i,
    {
        proof {
            assert(inc[i as int] == includes@[i as int]@);
        }
        let in_exc = contains_str(excludes, includes[i].as_str());
        let in_out = contains_str(&out, includes[i].as_str());
        if !in_exc && !in_out {
            let ghost prev = out@;
            out.push(includes[i].clone());
            proof {
                assert(out@ == prev.push(out@[prev.len() as int]));
                assert(out@.map_values(|s: String| s@) =~= prev.map_values(|s: String| s@).push(
                    inc[i as int],
                ));
            }
        }
        i += 1;
    }
    out
}

} // verus!
