//! Regular expressions, through the `regex` crate.
//!
//! Nothing here matches text itself: every question goes to `regex`, and its
//! answers are named rather than restated.

use vstd::prelude::*;

verus! {

/// Whether `regex::Regex::new` accepts the pattern.
pub uninterp spec fn regex_compiles(pattern: Seq<char>) -> bool;

/// What `regex::Regex::is_match` answers for a compiled pattern: whether the
/// pattern matches anywhere in the text.
pub uninterp spec fn regex_finds(pattern: Seq<char>, text: Seq<char>) -> bool;

/// The text of the error `regex::Regex::new` reports for a pattern it refuses.
pub uninterp spec fn regex_error_text(pattern: Seq<char>) -> Seq<char>;

/// `regex::Regex::new`, keeping only whether it succeeded and, when it did
/// not, the error's display text. Claims nothing beyond those two names.
#[verifier::external_body]
pub(crate) fn regex_check(pattern: &str) -> (r: Result<(), String>)
    ensures
        r is Ok <==> regex_compiles(pattern@),
        r matches Err(e) ==> e@ == regex_error_text(pattern@),
{
    match regex::Regex::new(pattern) {
        Ok(_) => Ok(()),
        Err(error) => Err(error.to_string()),
    }
}

/// `regex::Regex::new` then `is_match`: `None` when the pattern does not
/// compile, else whether it matches anywhere in `text`.
#[verifier::external_body]
pub(crate) fn regex_search(pattern: &str, text: &str) -> (r: Option<bool>)
    ensures
        r == (if regex_compiles(pattern@) {
            Some(regex_finds(pattern@, text@))
        } else {
            None::<bool>
        }),
{
    match regex::Regex::new(pattern) {
        Ok(regex) => Some(regex.is_match(text)),
        Err(_) => None,
    }
}


/// The characters `regex` gives a meaning of their own.
pub open spec fn is_meta(c: char) -> bool {
    c == '\\' || c == '.' || c == '+' || c == '*' || c == '?' || c == '(' || c == ')' || c == '|' || c == '['
        || c == ']' || c == '{' || c == '}' || c == '^' || c == '$' || c == '#' || c == '&' || c == '-' || c == '~'
}

/// The text with a backslash before every meta character.
pub open spec fn escaped(s: Seq<char>) -> Seq<char>
    decreases s.len(),
{
    if s.len() == 0 {
        Seq::empty()
    } else {
        escaped(s.drop_last()) + if is_meta(s.last()) {
            seq!['\\', s.last()]
        } else {
            seq![s.last()]
        }
    }
}

/// `regex::escape`: every meta character preceded by a backslash, so that the
/// text matches itself literally.
#[verifier::external_body]
pub(crate) fn regex_escape(text: &str) -> (r: String)
    ensures
        r@ == escaped(text@),
{
    regex::escape(text)
}

/// What `regex::Regex::captures_len` answers for a compiled pattern: the
/// number of capturing groups, the implicit group of the whole match included.
pub uninterp spec fn regex_group_count(pattern: Seq<char>) -> nat;

/// `regex::Regex::new` then `captures_len`: `None` when the pattern does not
/// compile, else how many capturing groups it has, counting the whole match.
#[verifier::external_body]
pub(crate) fn regex_groups(pattern: &str) -> (r: Option<usize>)
    ensures
        r is Some <==> regex_compiles(pattern@),
        r matches Some(n) ==> n == regex_group_count(pattern@),
{
    match regex::Regex::new(pattern) {
        Ok(regex) => Some(regex.captures_len()),
        Err(_) => None,
    }
}

/// What `regex::Regex::captures` gives for the first capturing group: its
/// text where the pattern matches and the group took part, else nothing.
pub uninterp spec fn regex_first_group(pattern: Seq<char>, text: Seq<char>) -> Option<Seq<char>>;

/// `regex::Regex::new` then `captures(text)` and group 1: `None` when the
/// pattern does not compile, else the group's text where there is one.
#[verifier::external_body]
pub(crate) fn regex_group_one(pattern: &str, text: &str) -> (r: Option<Option<String>>)
    ensures
        r is Some <==> regex_compiles(pattern@),
        r matches Some(g) ==> crate::types::opt_view(g) == regex_first_group(pattern@, text@),
{
    match regex::Regex::new(pattern) {
        Ok(regex) => Some(regex.captures(text).and_then(|found| found.get(1)).map(|group| group.as_str().to_owned())),
        Err(_) => None,
    }
}

/// What `regex::Regex::captures_iter` yields for the first capturing group:
/// one entry per match, in order, with the group's text where it took part.
pub uninterp spec fn regex_first_groups(pattern: Seq<char>, text: Seq<char>) -> Seq<Option<Seq<char>>>;

/// `regex::Regex::new` then `captures_iter(text)`, keeping group 1 of each
/// match: `None` when the pattern does not compile.
#[verifier::external_body]
pub(crate) fn regex_all_group_one(pattern: &str, text: &str) -> (r: Option<Vec<Option<String>>>)
    ensures
        r is Some <==> regex_compiles(pattern@),
        r matches Some(v) ==> v@.map_values(|g: Option<String>| crate::types::opt_view(g)) == regex_first_groups(pattern@, text@),
{
    match regex::Regex::new(pattern) {
        Ok(regex) => Some(
            regex.captures_iter(text).map(|found| found.get(1).map(|group| group.as_str().to_owned())).collect(),
        ),
        Err(_) => None,
    }
}

} // verus!
