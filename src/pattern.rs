//! The two regular expressions of the library, what each of them captures,
//! and the extractor that runs them.

use vstd::prelude::*;
use crate::version::is_digit;

verus! {

/// Three dot-separated runs of ASCII digits.
pub const VERSION_PATTERN: &'static str = r#"([0-9]+)\.([0-9]+)\.([0-9]+)"#;

/// A `version = "..."` setting; captures what stands between the quotes.
pub const VERSION_LINE_PATTERN: &'static str = r#"\s*version\s*=\s*"(.*)""#;

/// Why a step of the update failed.
#[derive(Clone, Copy, Debug, PartialEq, Eq, Structural)]
pub enum VersionError {
    /// A regular expression did not compile.
    InvalidPattern,
    /// The patch field is not a run of decimal digits.
    InvalidNumber,
}

#[verifier::external_type_specification]
#[verifier::external_body]
pub struct ExRegexError(regex::Error);

/// The length of the run of ASCII digits that starts at `i`.
pub open spec fn digit_run(s: Seq<char>, i: int) -> nat
    decreases s.len() - i,
{
    if 0 <= i < s.len() && is_digit(s[i]) {
        1 + digit_run(s, i + 1)
    } else {
        0
    }
}

/// The three groups of a match of `VERSION_PATTERN` that starts at `i`, if
/// one does. Each `[0-9]+` takes the whole run, as nothing but a dot or the
/// end can follow it.
pub open spec fn numbers_at(s: Seq<char>, i: int) -> Option<Seq<Seq<char>>> {
    let a = digit_run(s, i);
    let j = i + a;
    let b = digit_run(s, j + 1);
    let k = j + 1 + b;
    let c = digit_run(s, k + 1);
    if a > 0 && j < s.len() && s[j] == '.' && b > 0 && k < s.len() && s[k] == '.' && c > 0 {
        Some(seq![s.subrange(i, j), s.subrange(j + 1, k), s.subrange(k + 1, k + 1 + c)])
    } else {
        None
    }
}

/// The groups of the leftmost match of `VERSION_PATTERN` at or after `i`.
pub open spec fn first_numbers_from(s: Seq<char>, i: int) -> Option<Seq<Seq<char>>>
    decreases s.len() - i,
{
    if i < 0 || i >= s.len() {
        None
    } else {
        match numbers_at(s, i) {
            Some(g) => Some(g),
            None => first_numbers_from(s, i + 1),
        }
    }
}

/// What `VERSION_PATTERN` captures in `s`: three groups, or none where it
/// does not match.
pub open spec fn version_captures(s: Seq<char>) -> Seq<Seq<char>> {
    match first_numbers_from(s, 0) {
        Some(g) => g,
        None => seq![],
    }
}

/// Unicode White_Space, which both `\s` and `char::is_whitespace` denote.
pub open spec fn is_white_space(c: char) -> bool {
    ('\u{9}' <= c && c <= '\u{d}') || c == ' ' || c == '\u{85}' || c == '\u{a0}' || c
        == '\u{1680}' || ('\u{2000}' <= c && c <= '\u{200a}') || c == '\u{2028}' || c
        == '\u{2029}' || c == '\u{202f}' || c == '\u{205f}' || c == '\u{3000}'
}

/// The length of the run of white space that starts at `i`.
pub open spec fn space_run(s: Seq<char>, i: int) -> nat
    decreases s.len() - i,
{
    if 0 <= i < s.len() && is_white_space(s[i]) {
        1 + space_run(s, i + 1)
    } else {
        0
    }
}

/// The index of the first newline at or after `i`, or the length of `s`.
pub open spec fn line_end(s: Seq<char>, i: int) -> int
    decreases s.len() - i,
{
    if i < 0 || i >= s.len() || s[i] == '\n' {
        i
    } else {
        line_end(s, i + 1)
    }
}

/// The index of the last `c` in `s`, or -1.
pub open spec fn last_index_of(s: Seq<char>, c: char) -> int
    decreases s.len(),
{
    if s.len() == 0 {
        -1
    } else if s.last() == c {
        s.len() - 1
    } else {
        last_index_of(s.drop_last(), c)
    }
}

pub open spec fn version_word() -> Seq<char> {
    seq!['v', 'e', 'r', 's', 'i', 'o', 'n']
}

/// The group of a match of `VERSION_LINE_PATTERN` whose word `version`
/// starts at `k`, if there is one: from the opening quote, `(.*)"` reaches
/// the last quote before the end of the line.
pub open spec fn setting_at(s: Seq<char>, k: int) -> Option<Seq<char>> {
    let j = k + 7 + space_run(s, k + 7);
    let m = j + 1 + space_run(s, j + 1);
    let rest = s.subrange(m + 1, line_end(s, m + 1));
    let q = last_index_of(rest, '"');
    if 0 <= k && k + 7 <= s.len() && s.subrange(k, k + 7) == version_word() && j < s.len()
        && s[j] == '=' && m < s.len() && s[m] == '"' && q >= 0 {
        Some(rest.take(q))
    } else {
        None
    }
}

/// The group of the leftmost match of `VERSION_LINE_PATTERN` whose word
/// `version` starts at or after `k`. The white space before that word never
/// changes which match is leftmost.
pub open spec fn first_setting_from(s: Seq<char>, k: int) -> Option<Seq<char>>
    decreases s.len() - k,
{
    if k < 0 || k >= s.len() {
        None
    } else {
        match setting_at(s, k) {
            Some(v) => Some(v),
            None => first_setting_from(s, k + 1),
        }
    }
}

/// What `VERSION_LINE_PATTERN` captures in `s`: one group, or none where it
/// does not match.
pub open spec fn version_line_captures(s: Seq<char>) -> Seq<Seq<char>> {
    match first_setting_from(s, 0) {
        Some(v) => seq![v],
        None => seq![],
    }
}

/// The text of each group.
pub open spec fn texts(v: Seq<String>) -> Seq<Seq<char>> {
    v.map_values(|x: String| x@)
}

/// Relies on `regex::Regex::new` and `regex::Regex::captures`: compiles
/// `expression` and returns the groups of its leftmost-first match in
/// `text`, group 0 left out, or no group where it does not match. Both
/// patterns of this library compile.
#[verifier::external_body]
pub(crate) fn capture_groups(text: &str, expression: &str) -> (r: Result<
    Vec<String>,
    regex::Error,
>)
    ensures
        expression@ == VERSION_PATTERN@ ==> r is Ok && texts(r->Ok_0@) == version_captures(
            text@,
        ),
        expression@ == VERSION_LINE_PATTERN@ ==> r is Ok && texts(r->Ok_0@)
            == version_line_captures(text@),
{
    let re = regex::Regex::new(expression)?;
    Ok(match re.captures(text) {
        None => Vec::new(),
        Some(caps) => caps
            .iter()
            .skip(1)
            .map(|g| g.map_or(String::new(), |m| m.as_str().to_string()))
            .collect(),
    })
}

} // verus!
