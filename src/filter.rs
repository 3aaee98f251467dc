use vstd::prelude::*;

verus! {

/// The names of the rooms that the queries report: the `V-A` and `V-B` rooms.
pub const ROOM_PATTERN: &'static str = "^\\bV-[AB]\\s?\\d*?\\b$";

/// Whether the regular expression `pattern` finds a match in `text`.
pub uninterp spec fn regex_matches(pattern: Seq<char>, text: Seq<char>) -> bool;

/// Whether `pattern` compiles as a regular expression under the default limits.
pub uninterp spec fn pattern_compiles(pattern: Seq<char>) -> bool;

#[verifier::external_type_specification]
#[verifier::external_body]
pub struct ExRegexError(regex::Error);

/// Relies on regex::Regex::new, which compiles `pattern` or says why it cannot, and
/// on Regex::is_match, whose answer depends on the pattern and the text alone. Only
/// compiling can fail, and that depends on the pattern alone.
#[verifier::external_body]
pub(crate) fn pattern_matches(pattern: &str, text: &str) -> (r: Result<bool, regex::Error>)
    ensures
        r is Ok <==> pattern_compiles(pattern@),
        r matches Ok(b) ==> b == regex_matches(pattern@, text@),
{
    match regex::Regex::new(pattern) {
        Ok(re) => Ok(re.is_match(text)),
        Err(e) => Err(e),
    }
}

} // verus!
