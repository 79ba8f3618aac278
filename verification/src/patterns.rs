//! Regular expression matching, through the `regex` crate.

use vstd::prelude::*;

verus! {

/// One match of a regular expression: the byte offset in the text where the
/// match starts, and the text of every capture group (group 0 being the
/// whole match), `None` for a group that took no part.
pub struct PatternMatch {
    pub start: usize,
    pub groups: Vec<Option<String>>,
}

/// The match as plain values: start offset and group texts.
pub open spec fn match_view(m: PatternMatch) -> (nat, Seq<Option<Seq<char>>>) {
    (
        m.start as nat,
        m.groups@.map_values(
            |g: Option<String>|
                match g {
                    Some(s) => Some(s@),
                    None => None,
                },
        ),
    )
}

/// The matches as plain values.
pub open spec fn matches_view(ms: Seq<PatternMatch>) -> Seq<(nat, Seq<Option<Seq<char>>>)> {
    ms.map_values(|m: PatternMatch| match_view(m))
}

/// The successive non-overlapping matches of the regular expression
/// `pattern` in `text`, as `regex::Regex::captures_iter` yields them; `None`
/// when `pattern` is not a valid expression.
pub uninterp spec fn regex_matches(pattern: Seq<char>, text: Seq<char>) -> Option<
    Seq<(nat, Seq<Option<Seq<char>>>)>,
>;

/// Compiles `pattern` with `regex::Regex::new` and collects
/// `Regex::captures_iter(text)`: each match's start (`Captures::get_match`)
/// and the text of each group (`Captures::iter`). Stated: the result is the
/// named `regex_matches`, and, as the iterator yields successive matches,
/// their starts never decrease and lie within the text.
#[verifier::external_body]
pub(crate) fn find_matches(pattern: &str, text: &str) -> (r: Option<Vec<PatternMatch>>)
    ensures
        match r {
            Some(ms) => regex_matches(pattern@, text@) == Some(matches_view(ms@)),
            None => regex_matches(pattern@, text@) is None,
        },
        r matches Some(ms) ==> forall|i: int, j: int|
            0 <= i <= j < ms@.len() ==> ms@[i].start <= ms@[j].start,
        r matches Some(ms) ==> forall|i: int|
            0 <= i < ms@.len() ==> ms@[i].start <= vstd::utf8::encode_utf8(text@).len(),
{
    match regex::Regex::new(pattern) {
        Ok(re) => Some(
            re.captures_iter(text).map(
                |c| PatternMatch {
                    start: c.get_match().start(),
                    groups: c.iter().map(|g| g.map(|m| m.as_str().to_string())).collect(),
                },
            ).collect(),
        ),
        Err(_) => None,
    }
}

} // verus!
