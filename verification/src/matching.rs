//! Regular-expression searches, made by the `regex` crate.
use vstd::prelude::*;

verus! {

/// The text of each successive non-overlapping match of the regular
/// expression `pattern` in `text`, or `None` where `pattern` does not compile.
pub uninterp spec fn regex_matches(pattern: Seq<char>, text: Seq<char>) -> Option<Seq<Seq<char>>>;

/// `regex::Regex::new(pattern)` and then `find_iter(text)`, each match taken
/// as its text. The contract names the result and states nothing of how the
/// regular expression matches.
#[verifier::external_body]
pub(crate) fn regex_find_all(pattern: &str, text: &str) -> (r: Option<Vec<String>>)
    ensures
        r.deep_view() == regex_matches(pattern@, text@),
{
    match regex::Regex::new(pattern) {
        Ok(re) => Some(re.find_iter(text).map(|m| m.as_str().to_string()).collect()),
        Err(_) => None,
    }
}

/// The bytes of each successive non-overlapping match of the byte-oriented
/// regular expression `pattern` in `bytes`, or `None` where `pattern` does not
/// compile.
pub uninterp spec fn regex_byte_matches(pattern: Seq<char>, bytes: Seq<u8>) -> Option<Seq<Seq<u8>>>;

/// `regex::bytes::Regex::new(pattern)` and then `find_iter(bytes)`, each
/// match taken as its bytes. The contract names the result and states nothing
/// of how the regular expression matches.
#[verifier::external_body]
pub(crate) fn regex_find_all_bytes(pattern: &str, bytes: &[u8]) -> (r: Option<Vec<Vec<u8>>>)
    ensures
        r.deep_view() == regex_byte_matches(pattern@, bytes@),
{
    match regex::bytes::Regex::new(pattern) {
        Ok(re) => Some(re.find_iter(bytes).map(|m| m.as_bytes().to_vec()).collect()),
        Err(_) => None,
    }
}

/// For each successive non-overlapping match of the byte-oriented regular
/// expression `pattern` in `bytes`, the bytes of each capture group (group 0
/// being the whole match; `None` for a group that did not take part), or
/// `None` where `pattern` does not compile.
pub uninterp spec fn regex_byte_captures(pattern: Seq<char>, bytes: Seq<u8>) -> Option<
    Seq<Seq<Option<Seq<u8>>>>,
>;

/// `regex::bytes::Regex::new(pattern)` and then `captures_iter(bytes)`, each
/// capture group taken as its bytes. The contract names the result and
/// states nothing of how the regular expression matches.
#[verifier::external_body]
pub(crate) fn regex_captures_bytes(pattern: &str, bytes: &[u8]) -> (r: Option<Vec<Vec<Option<Vec<u8>>>>>)
    ensures
        r.deep_view() == regex_byte_captures(pattern@, bytes@),
{
    match regex::bytes::Regex::new(pattern) {
        Ok(re) => Some(
            re.captures_iter(bytes).map(
                |c| c.iter().map(|g| g.map(|m| m.as_bytes().to_vec())).collect(),
            ).collect(),
        ),
        Err(_) => None,
    }
}

} // verus!
