//! Pattern search over text, done by the `regex` crate.

use vstd::prelude::*;

verus! {

/// What a search of `haystack` for `pattern` yields: `None` where the
/// pattern does not compile, else one entry for each match, in the order of
/// the matches, holding the text of the first capture group, or `None` where
/// that group took no part in the match.
pub uninterp spec fn first_groups(pattern: Seq<char>, haystack: Seq<char>) -> Option<
    Seq<Option<Seq<char>>>,
>;

/// The characters of an optional string.
pub open spec fn group_chars(group: Option<String>) -> Option<Seq<char>> {
    match group {
        Some(s) => Some(s@),
        None => None,
    }
}

/// The characters of each of a list of optional strings.
pub open spec fn groups_chars(groups: Seq<Option<String>>) -> Seq<Option<Seq<char>>> {
    groups.map_values(|g: Option<String>| group_chars(g))
}

/// Compiles `pattern` with `regex::Regex::new` and walks the matches in
/// `haystack` with `Regex::captures_iter`, reading the first group of each
/// with `Captures::get`. Nothing is proved of the search itself: the result
/// is only given its name, `first_groups`, as a function of the two texts.
#[verifier::external_body]
pub(crate) fn capture_first_groups(pattern: &str, haystack: &str) -> (found: Option<
    Vec<Option<String>>,
>)
    ensures
        found is Some == first_groups(pattern@, haystack@) is Some,
        found is Some ==> groups_chars(found->0@) == first_groups(pattern@, haystack@)->0,
{
    match regex::Regex::new(pattern) {
        Ok(re) => Some(
            re.captures_iter(haystack).map(|c| c.get(1).map(|m| m.as_str().to_string())).collect(),
        ),
        Err(_) => None,
    }
}

} // verus!
