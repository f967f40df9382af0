//! Regular expressions for the output of the Boogie verifier, and matching by the crate `regex`.
use vstd::prelude::*;
use vstd::utf8::*;

use crate::text::{begins_with, skip_head};

verus! {

/// A model, up to the line that ends it.
pub const MODEL_REGION: &'static str = r"(?m)^\*\*\* MODEL$(?P<mod>(?s:.)*?^\*\*\* END_MODEL$)";

/// The line that reports a verification error.
pub const DIAG_START: &'static str =
    r"(?m)^.*\((?P<line>\d+),(?P<col>\d+)\): Error BP\d+:(?P<msg>.*)$";

/// The line that points to the pre- or postcondition of an error.
pub const DIAG_RELATED: &'static str = r"(?m)^.+\((?P<line>\d+),(?P<col>\d+)\): Related.*$";

/// The line that starts an execution trace.
pub const DIAG_TRACE: &'static str = r"(?m)^Execution trace:$";

/// An entry of an execution trace.
pub const DIAG_TRACE_ENTRY: &'static str =
    r"(?m)^    .*\((?P<line>\d+),(?P<col>\d+)\): (?P<msg>.*)$";

/// The line that reports any other error.
pub const DIAG_COMPILATION: &'static str =
    r"(?m)^.*\((?P<line>\d+),(?P<col>\d+)\).*(Error:|error:).*$";

/// What a match of a regular expression holds: the text before it, its own text, and the texts of
/// the named groups that took part in it.
pub struct Captured {
    pub before: Seq<char>,
    pub matched: Seq<char>,
    pub groups: Map<Seq<char>, Seq<char>>,
}

/// Declares the type of the crate `regex` that holds the groups of a match.
#[verifier::external_type_specification]
#[verifier::external_body]
pub struct ExCaptures<'h>(regex::Captures<'h>);

/// What a match of the crate `regex` holds.
pub uninterp spec fn captured(captures: regex::Captures<'_>) -> Captured;

/// The leftmost match that `regex` finds for a pattern in a text.
pub uninterp spec fn first_match(pattern: Seq<char>, text: Seq<char>) -> Option<Captured>;

/// The successive matches that `regex` finds for a pattern in a text, which do not overlap.
pub uninterp spec fn all_matches(pattern: Seq<char>, text: Seq<char>) -> Seq<Captured>;

/// What matches hold.
pub open spec fn captured_all(captures: Seq<regex::Captures<'_>>) -> Seq<Captured> {
    Seq::new(captures.len(), |i: int| captured(captures[i]))
}

/// Tells whether a pattern is one of those above.
pub open spec fn is_pattern(pattern: Seq<char>) -> bool {
    ||| pattern == MODEL_REGION@
    ||| pattern == DIAG_START@
    ||| pattern == DIAG_RELATED@
    ||| pattern == DIAG_TRACE@
    ||| pattern == DIAG_TRACE_ENTRY@
    ||| pattern == DIAG_COMPILATION@
}

/// The text that a match has left behind it.
pub open spec fn consumed(m: Captured) -> Seq<char> {
    m.before + m.matched
}

/// The text behind a match.
pub open spec fn after(text: Seq<char>, m: Captured) -> Seq<char> {
    text.skip(consumed(m).len() as int)
}

/// Tells whether a match has all the groups that its pattern names.
pub open spec fn has_groups(pattern: Seq<char>, m: Captured) -> bool {
    &&& pattern == MODEL_REGION@ ==> m.groups.contains_key("mod"@)
    &&& (pattern == DIAG_START@ || pattern == DIAG_TRACE_ENTRY@) ==> m.groups.contains_key("msg"@)
    &&& (pattern == DIAG_START@ || pattern == DIAG_RELATED@ || pattern == DIAG_TRACE_ENTRY@
        || pattern == DIAG_COMPILATION@) ==> m.groups.contains_key("line"@)
        && m.groups.contains_key("col"@)
}

/// Tells whether matches lie in a text one behind the other, without overlap, and are not empty.
pub open spec fn lie_in_order(text: Seq<char>, matches: Seq<Captured>) -> bool {
    &&& forall|i: int|
        0 <= i < matches.len() ==> begins_with(text, consumed(#[trigger] matches[i]))
            && matches[i].matched.len() > 0
    &&& forall|i: int, j: int|
        0 <= i < j < matches.len() ==> consumed(#[trigger] matches[i]).len() <= (
        #[trigger] matches[j]).before.len()
}

/// Wraps `regex::Regex::captures`, with the regular expression that `regex::Regex::new` makes of
/// the pattern. It finds the leftmost match, which is a function of the two texts. What a pattern
/// matches is left to `regex`. Claimed of a match is that it lies in the text, that it is not
/// empty, as none of the patterns matches the empty text, and that the named groups took part, as
/// none of the patterns has one that is optional.
#[verifier::external_body]
pub(crate) fn captures<'h>(pattern: &str, text: &'h str) -> (res: Option<regex::Captures<'h>>)
    requires
        is_pattern(pattern@),
    ensures
        first_match(pattern@, text@) == match res {
            Some(found) => Some(captured(found)),
            None => None,
        },
        res matches Some(found) ==> {
            &&& begins_with(text@, consumed(captured(found)))
            &&& captured(found).matched.len() > 0
            &&& has_groups(pattern@, captured(found))
        },
{
    regex::Regex::new(pattern).unwrap().captures(text)
}

/// Wraps `regex::Regex::captures_iter`, with the regular expression that `regex::Regex::new` makes
/// of the pattern. It gives the successive matches, which are a function of the two texts. Claimed
/// of them is that they lie in the text in order and do not overlap, that none is empty, as none of
/// the patterns matches the empty text, and that the named groups took part in each.
#[verifier::external_body]
pub(crate) fn captures_all<'h>(pattern: &str, text: &'h str) -> (res: Vec<regex::Captures<'h>>)
    requires
        is_pattern(pattern@),
    ensures
        captured_all(res@) == all_matches(pattern@, text@),
        lie_in_order(text@, captured_all(res@)),
        forall|i: int|
            0 <= i < res@.len() ==> has_groups(pattern@, captured(#[trigger] res@[i])),
{
    regex::Regex::new(pattern).unwrap().captures_iter(text).collect()
}

/// Wraps `regex::Captures::name`, the text of a group that took part in a match.
#[verifier::external_body]
pub(crate) fn group<'h>(captures: &regex::Captures<'h>, name: &str) -> (res: Option<&'h str>)
    ensures
        match res {
            Some(s) => captured(*captures).groups.contains_key(name@)
                && captured(*captures).groups[name@] == s@,
            None => !captured(*captures).groups.contains_key(name@),
        },
{
    captures.name(name).map(|m| m.as_str())
}

/// Wraps `regex::Captures::get` for the whole match, and gives its text.
#[verifier::external_body]
pub(crate) fn whole<'h>(captures: &regex::Captures<'h>) -> (res: &'h str)
    ensures
        res@ == captured(*captures).matched,
{
    captures.get(0).unwrap().as_str()
}

/// Wraps `regex::Match::end` for the whole match, the number of bytes up to its end.
#[verifier::external_body]
pub(crate) fn end(captures: &regex::Captures<'_>) -> (res: usize)
    ensures
        res == encode_utf8(consumed(captured(*captures))).len(),
{
    captures.get(0).unwrap().end()
}

/// The part of a text behind a match.
pub(crate) fn skip_match<'h>(text: &'h str, captures: &regex::Captures<'h>) -> (res: &'h str)
    requires
        begins_with(text@, consumed(captured(*captures))),
    ensures
        res@ == after(text@, captured(*captures)),
{
    skip_head(text, end(captures), Ghost(consumed(captured(*captures))))
}

} // verus!
