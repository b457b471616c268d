use vstd::prelude::*;

verus! {

/// Whether the regex crate accepts these bytes (decoded lossily to text) as a
/// pattern; a function of the pattern bytes alone.
pub uninterp spec fn regex_valid(p: Seq<u8>) -> bool;

/// Whether the compiled pattern matches somewhere in the haystack; a function
/// of the pattern bytes and the haystack bytes alone.
pub uninterp spec fn regex_match_of(p: Seq<u8>, u: Seq<u8>) -> bool;

/// What a regex-kind filter means: the pattern compiles and matches the URL.
pub open spec fn spec_regex_filter_match(p: Seq<u8>, u: Seq<u8>) -> bool {
    regex_valid(p) && regex_match_of(p, u)
}

/// Relies on regex::bytes::Regex::new and Regex::is_match: compilation
/// succeeds or fails by the pattern alone, and a compiled regex matches by the
/// pattern and haystack bytes alone.
#[verifier::external_body]
fn regex_try_match(pat: &[u8], text: &[u8]) -> (r: Option<bool>)
    ensures
        (r is Some) == regex_valid(pat@),
        r matches Some(b) ==> b == regex_match_of(pat@, text@),
{
    match regex::bytes::Regex::new(&String::from_utf8_lossy(pat)) {
        Ok(re) => Some(re.is_match(text)),
        Err(_) => None,
    }
}

/// A regex filter matches when its pattern compiles and the URL matches; a
/// pattern the regex crate rejects never matches anything.
pub fn regex_filter_match(pat: &[u8], text: &[u8]) -> (r: bool)
    ensures
        r == spec_regex_filter_match(pat@, text@),
{
    match regex_try_match(pat, text) {
        Option::Some(b) => b,
        Option::None => false,
    }
}

} // verus!
