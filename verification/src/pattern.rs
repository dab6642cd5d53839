//! Regular expressions, matched by the `regex` crate.
//!
//! What a pattern finds in a text is a function of the two alone, but not one
//! that a few lines could state, so it has a name, `first_match`. The
//! contract of the wrapper is not proved.

use vstd::prelude::*;

verus! {

/// The groups of the leftmost match of `pattern` in `text`: group 0 is the
/// whole match, group `i` what the `i`-th pair of capturing parentheses
/// caught, or `None` where it took no part. `None` where nothing matches,
/// or where `pattern` is no regular expression.
pub uninterp spec fn first_match(pattern: Seq<char>, text: Seq<char>) -> Option<
    Seq<Option<Seq<char>>>,
>;

/// The texts of a sequence of groups.
pub open spec fn groups_view(groups: Seq<Option<String>>) -> Seq<Option<Seq<char>>> {
    Seq::new(
        groups.len(),
        |i: int|
            match groups[i] {
                Some(s) => Some(s@),
                None => None,
            },
    )
}

/// `Regex::new` and `Regex::captures`: the groups of the leftmost match of
/// `pattern` in `text`, which are `first_match` of the two.
#[verifier::external_body]
pub(crate) fn captures(pattern: &str, text: &str) -> (r: Option<Vec<Option<String>>>)
    ensures
        match first_match(pattern@, text@) {
            Some(groups) => r matches Some(found) && groups_view(found@) == groups,
            None => r is None,
        },
{
    let re = regex::Regex::new(pattern).ok()?;
    let found = re.captures(text)?;
    Some(found.iter().map(|m| m.map(|g| g.as_str().to_string())).collect())
}

/// The text of group `i`, or the empty text where there is no such group or
/// it took no part in the match.
pub open spec fn group_text(groups: Seq<Option<Seq<char>>>, i: int) -> Seq<char> {
    if 0 <= i < groups.len() {
        match groups[i] {
            Some(s) => s,
            None => Seq::empty(),
        }
    } else {
        Seq::empty()
    }
}

/// The characters of group `i`, or none where there is no such group or it
/// took no part in the match.
pub fn group(groups: &Vec<Option<String>>, i: usize) -> (r: Vec<char>)
    ensures
        r@ == group_text(groups_view(groups@), i as int),
{
    if i < groups.len() {
        match &groups[i] {
            Some(s) => crate::text::chars_of(s.as_str()),
            None => Vec::new(),
        }
    } else {
        Vec::new()
    }
}

} // verus!
