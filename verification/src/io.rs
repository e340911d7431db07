//! The vector file formats and how a format is chosen: by an explicit
//! name, or by the extension of the file's path.

use vstd::prelude::*;
use vstd::string::*;

use crate::error::VecMathError;

verus! {

/// A file format for vectors.
#[derive(Debug, Clone, Copy, PartialEq, Eq, Structural)]
pub enum InputFormat {
    Jsonl,
    Csv,
    Binary,
}

/// The lowercase form of a string, as `str::to_lowercase` computes it
/// (by the Unicode `Lowercase` mapping).
pub uninterp spec fn lowercase(s: Seq<char>) -> Seq<char>;

/// Calls `str::to_lowercase`. Nothing is claimed of the result but that
/// it is `lowercase` of the argument: the same text always maps to the
/// same lowercase text.
#[verifier::external_body]
fn to_lowercase(s: &str) -> (res: String)
    ensures
        res@ == lowercase(s@),
{
    s.to_lowercase()
}

/// `s` ends with `suffix`.
pub open spec fn has_suffix(s: Seq<char>, suffix: Seq<char>) -> bool {
    suffix.len() <= s.len() && s.subrange(s.len() - suffix.len(), s.len() as int) == suffix
}

/// Whether `s` ends with `suffix`.
fn ends_with(s: &str, suffix: &str) -> (res: bool)
    ensures
        res == has_suffix(s@, suffix@),
{
    let n = s.unicode_len();
    let m = suffix.unicode_len();
    if m > n {
        return false;
    }
    let mut i: usize = 0;
    while i < m
        invariant
            m <= n,
            n == s@.len(),
            m == suffix@.len(),
            i <= m,
            forall|k: int| 0 <= k < i ==> s@[n - m + k] == suffix@[k],
        decreases m - i,
    {
        if s.get_char(n - m + i) != suffix.get_char(i) {
            assert(s@.subrange(n - m, n as int)[i as int] != suffix@[i as int]);
            return false;
        }
        i += 1;
    }
    assert(s@.subrange(n - m, n as int) =~= suffix@);
    true
}

/// Whether `a` and `b` are the same text.
fn same_text(a: &str, b: &str) -> (res: bool)
    ensures
        res == (a@ == b@),
{
    let n = a.unicode_len();
    if n != b.unicode_len() {
        return false;
    }
    let mut i: usize = 0;
    while i < n
        invariant
            n == a@.len(),
            n == b@.len(),
            i <= n,
            forall|k: int| 0 <= k < i ==> a@[k] == b@[k],
        decreases n - i,
    {
        if a.get_char(i) != b.get_char(i) {
            return false;
        }
        i += 1;
    }
    assert(a@ =~= b@);
    true
}

/// The format that a lowercase file path names by its extension.
pub open spec fn format_of_extension(lower: Seq<char>) -> Option<InputFormat> {
    if has_suffix(lower, ".jsonl"@) || has_suffix(lower, ".json"@) {
        Some(InputFormat::Jsonl)
    } else if has_suffix(lower, ".csv"@) {
        Some(InputFormat::Csv)
    } else if has_suffix(lower, ".bin"@) || has_suffix(lower, ".binary"@) {
        Some(InputFormat::Binary)
    } else {
        None
    }
}

/// The format that a lowercase format name names.
pub open spec fn format_of_name(lower: Seq<char>) -> Option<InputFormat> {
    if lower == "jsonl"@ || lower == "json"@ {
        Some(InputFormat::Jsonl)
    } else if lower == "csv"@ {
        Some(InputFormat::Csv)
    } else if lower == "binary"@ || lower == "bin"@ {
        Some(InputFormat::Binary)
    } else {
        None
    }
}

/// Law: a path whose extension is a format name is read in the format of
/// that name; the names accepted by `from_str` and the extensions accepted
/// by `from_filename` agree.
pub proof fn lemma_extension_agrees_with_name(stem: Seq<char>, name: Seq<char>)
    requires
        format_of_name(name) is Some,
    ensures
        format_of_extension(stem + "."@ + name) == format_of_name(name),
{
    reveal_strlit(".");
    reveal_strlit("jsonl");
    reveal_strlit("json");
    reveal_strlit("csv");
    reveal_strlit("binary");
    reveal_strlit("bin");
    reveal_strlit(".jsonl");
    reveal_strlit(".json");
    reveal_strlit(".csv");
    reveal_strlit(".binary");
    reveal_strlit(".bin");
    let p = stem + "."@ + name;
    let tail = |k: nat| p.subrange(p.len() - k, p.len() as int);
    if name == "jsonl"@ {
        assert(tail(6) =~= ".jsonl"@);
    } else if name == "json"@ {
        assert(tail(5) =~= ".json"@);
        assert(!has_suffix(p, ".jsonl"@)) by {
            if has_suffix(p, ".jsonl"@) {
                assert(tail(6)[1] == p[p.len() - 5]);
            }
        }
    } else if name == "csv"@ {
        assert(tail(4) =~= ".csv"@);
        assert(tail(4)[3] == 'v');
        assert(!has_suffix(p, ".jsonl"@) && !has_suffix(p, ".json"@)) by {
            if has_suffix(p, ".jsonl"@) {
                assert(tail(6)[5] == p[p.len() - 1]);
            }
            if has_suffix(p, ".json"@) {
                assert(tail(5)[4] == p[p.len() - 1]);
            }
        }
    } else if name == "binary"@ {
        assert(tail(7) =~= ".binary"@);
        assert(p[p.len() - 1] == 'y');
        assert(!has_suffix(p, ".jsonl"@) && !has_suffix(p, ".json"@) && !has_suffix(p, ".csv"@)
            && !has_suffix(p, ".bin"@)) by {
            if has_suffix(p, ".jsonl"@) {
                assert(tail(6)[5] == p[p.len() - 1]);
            }
            if has_suffix(p, ".json"@) {
                assert(tail(5)[4] == p[p.len() - 1]);
            }
            if has_suffix(p, ".csv"@) {
                assert(tail(4)[3] == p[p.len() - 1]);
            }
            if has_suffix(p, ".bin"@) {
                assert(tail(4)[3] == p[p.len() - 1]);
            }
        }
    } else {
        assert(name == "bin"@);
        assert(tail(4) =~= ".bin"@);
        assert(p[p.len() - 1] == 'n');
        assert(p[p.len() - 4] == '.');
        assert(!has_suffix(p, ".jsonl"@) && !has_suffix(p, ".json"@) && !has_suffix(p, ".csv"@))
            by {
            if has_suffix(p, ".jsonl"@) {
                assert(tail(6)[5] == p[p.len() - 1]);
            }
            if has_suffix(p, ".json"@) {
                assert(tail(5)[1] == p[p.len() - 4]);
            }
            if has_suffix(p, ".csv"@) {
                assert(tail(4)[3] == p[p.len() - 1]);
            }
        }
    }
}

impl InputFormat {
    /// The format named by the extension of an already lowercase path.
    pub fn from_extension(lower: &str) -> (res: Option<InputFormat>)
        ensures
            res == format_of_extension(lower@),
    {
        if ends_with(lower, ".jsonl") || ends_with(lower, ".json") {
            Some(InputFormat::Jsonl)
        } else if ends_with(lower, ".csv") {
            Some(InputFormat::Csv)
        } else if ends_with(lower, ".bin") || ends_with(lower, ".binary") {
            Some(InputFormat::Binary)
        } else {
            None
        }
    }

    /// The format named by an already lowercase format name.
    pub fn from_name(lower: &str) -> (res: Option<InputFormat>)
        ensures
            res == format_of_name(lower@),
    {
        if same_text(lower, "jsonl") || same_text(lower, "json") {
            Some(InputFormat::Jsonl)
        } else if same_text(lower, "csv") {
            Some(InputFormat::Csv)
        } else if same_text(lower, "binary") || same_text(lower, "bin") {
            Some(InputFormat::Binary)
        } else {
            None
        }
    }

    /// The format of a file, from the extension of its path, compared
    /// without regard to case. An unknown extension is refused with the
    /// lowercase path.
    pub fn from_filename(path: &str) -> (res: Result<InputFormat, VecMathError>)
        ensures
            format_of_extension(lowercase(path@)) matches Some(f) ==> res == Ok::<
                InputFormat,
                VecMathError,
            >(f),
            format_of_extension(lowercase(path@)) is None ==> (res matches Err(
                VecMathError::UnsupportedFormat(p),
            ) && p@ == lowercase(path@)),
    {
        let lower = to_lowercase(path);
        match InputFormat::from_extension(lower.as_str()) {
            Some(f) => Ok(f),
            None => Err(VecMathError::UnsupportedFormat(lower)),
        }
    }

    /// The format with the given name, compared without regard to case.
    /// An unknown name is refused with the name as given.
    pub fn from_str(s: &str) -> (res: Result<InputFormat, VecMathError>)
        ensures
            format_of_name(lowercase(s@)) matches Some(f) ==> res == Ok::<
                InputFormat,
                VecMathError,
            >(f),
            format_of_name(lowercase(s@)) is None ==> (res matches Err(
                VecMathError::UnsupportedFormat(n),
            ) && n@ == s@),
    {
        let lower = to_lowercase(s);
        match InputFormat::from_name(lower.as_str()) {
            Some(f) => Ok(f),
            None => Err(VecMathError::UnsupportedFormat(String::from_str(s))),
        }
    }
}

/// The format in which a file is read or written: the one requested, or
/// else the one its path names.
pub fn resolve_format(path: &str, requested: Option<InputFormat>) -> (res: Result<
    InputFormat,
    VecMathError,
>)
    ensures
        requested matches Some(f) ==> res == Ok::<InputFormat, VecMathError>(f),
        requested is None ==> (format_of_extension(lowercase(path@)) matches Some(f) ==> res
            == Ok::<InputFormat, VecMathError>(f)),
        requested is None && format_of_extension(lowercase(path@)) is None ==> (res matches Err(
            VecMathError::UnsupportedFormat(p),
        ) && p@ == lowercase(path@)),
{
    match requested {
        Some(f) => Ok(f),
        None => InputFormat::from_filename(path),
    }
}

} // verus!
