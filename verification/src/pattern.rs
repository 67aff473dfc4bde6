//! Regular-expression searches, run by the `regex` crate, and the patterns of
//! the dialect. Each search compiles its pattern anew, so a search depends on
//! the pattern and the haystack alone.

use vstd::prelude::*;

verus! {

/// A comma with the white space around it: what parts the items of a list.
pub const COMMAS: &'static str = r#"\s*,\s*"#;

/// One property of a tile record: `#`, the key, `:` and the value, which is a
/// quoted text, a point, a bracketed list or a bare number. The key is the
/// first group, the value the second.
pub const PROPERTY: &'static str =
    r#"\#(\w+):("[\\\w\d\s+_-]*?"|point\([\s\d,-]*?\)|\[\s*((\s*?,?\s*?(-?\d+|"[\w\d\s]*?"))*?)\s*\]|\d+)"#;

/// A category header: a quoted name, a comma and `color(..)`. The name is the
/// first group, the channels of the colour the second.
pub const CATEGORY: &'static str = r#""(.+?)"\s*?,\s*?color\((.+?)\)"#;

/// The marker at the end of a line that gives a category its ordinal, which is
/// the first group.
pub const CATEGORY_INDEX: &'static str = r#"--CATEGORY_INDEX:(\d+)$"#;

/// The `regex::Error` that `Regex::new` gives for a pattern it refuses,
/// carried as it is: nothing is read from it here.
#[verifier::external_type_specification]
#[verifier::external_body]
pub struct ExRegexError(regex::Error);

/// What `Regex::split` yields for a pattern and a haystack: the parts of the
/// haystack between successive matches, in order; `None` where `Regex::new`
/// refuses the pattern.
pub uninterp spec fn regex_split(pattern: Seq<char>, haystack: Seq<char>) -> Option<Seq<Seq<char>>>;

/// What `Regex::captures` yields for a pattern and a haystack: the groups of
/// the first match, the whole match first, each with the text it matched if
/// it took part; `Some(None)` where nothing matches; `None` where `Regex::new`
/// refuses the pattern.
pub uninterp spec fn regex_captures(pattern: Seq<char>, haystack: Seq<char>) -> Option<
    Option<Seq<Option<Seq<char>>>>,
>;

/// What `Regex::captures_iter` yields for a pattern and a haystack: the groups
/// of each successive match, as `regex_captures` gives them for the first;
/// `None` where `Regex::new` refuses the pattern.
pub uninterp spec fn regex_captures_iter(pattern: Seq<char>, haystack: Seq<char>) -> Option<
    Seq<Seq<Option<Seq<char>>>>,
>;

/// Compiles `pattern` with `Regex::new` and cuts `haystack` with
/// `Regex::split`. The parts are those that `regex_split` names; each is a
/// substring of the haystack, so none is longer than it. The error is that
/// of `Regex::new`.
#[verifier::external_body]
pub(crate) fn split(pattern: &str, haystack: &str) -> (r: Result<Vec<String>, regex::Error>)
    ensures
        match r {
            Ok(parts) => regex_split(pattern@, haystack@) == Some(parts.deep_view()),
            Err(_) => regex_split(pattern@, haystack@) is None,
        },
        r matches Ok(parts) ==> forall|i: int|
            0 <= i < parts.len() ==> (#[trigger] parts[i])@.len() <= haystack@.len(),
{
    let re = regex::Regex::new(pattern)?;
    Ok(re.split(haystack).map(|part| part.to_string()).collect())
}

/// Compiles `pattern` with `Regex::new` and searches `haystack` with
/// `Regex::captures`. The result is what `regex_captures` names. The error is
/// that of `Regex::new`.
#[verifier::external_body]
pub(crate) fn captures(pattern: &str, haystack: &str) -> (r: Result<
    Option<Vec<Option<String>>>,
    regex::Error,
>)
    ensures
        match r {
            Ok(found) => regex_captures(pattern@, haystack@) == Some(found.deep_view()),
            Err(_) => regex_captures(pattern@, haystack@) is None,
        },
{
    let re = regex::Regex::new(pattern)?;
    Ok(re.captures(haystack).map(|c| c.iter().map(|g| g.map(|m| m.as_str().to_string())).collect()))
}

/// Compiles `pattern` with `Regex::new` and searches `haystack` with
/// `Regex::captures_iter`. The result is what `regex_captures_iter` names.
/// The error is that of `Regex::new`.
#[verifier::external_body]
pub(crate) fn captures_iter(pattern: &str, haystack: &str) -> (r: Result<
    Vec<Vec<Option<String>>>,
    regex::Error,
>)
    ensures
        match r {
            Ok(found) => regex_captures_iter(pattern@, haystack@) == Some(found.deep_view()),
            Err(_) => regex_captures_iter(pattern@, haystack@) is None,
        },
{
    let re = regex::Regex::new(pattern)?;
    Ok(
        re.captures_iter(haystack).map(
            |c| c.iter().map(|g| g.map(|m| m.as_str().to_string())).collect(),
        ).collect(),
    )
}

} // verus!
