//! Literal substring matching of one line against one pattern.

use vstd::prelude::*;
use vstd::utf8::encode_utf8;

verus! {

/// `needle` stands in `haystack` at byte offset `at`.
pub open spec fn occurs_at(needle: Seq<u8>, haystack: Seq<u8>, at: int) -> bool {
    &&& 0 <= at
    &&& at + needle.len() <= haystack.len()
    &&& haystack.subrange(at, at + needle.len()) == needle
}

/// `needle` stands somewhere in `haystack`.
pub open spec fn occurs_in(needle: Seq<u8>, haystack: Seq<u8>) -> bool {
    exists|at: int| occurs_at(needle, haystack, at)
}

/// The lower-case form that `str::to_lowercase` gives to a text: the Unicode
/// lower-case mapping, which depends on the text alone.
pub uninterp spec fn lowercase_of(text: Seq<char>) -> Seq<char>;

/// What a line and a pattern are compared as: themselves, or their lower-case
/// forms when case is ignored. Either both are folded or neither is.
pub open spec fn folded(text: Seq<char>, ignore_case: bool) -> Seq<char> {
    if ignore_case {
        lowercase_of(text)
    } else {
        text
    }
}

/// The match predicate: the pattern's bytes occur in the line's bytes, after
/// both were folded in the same way.
pub open spec fn is_match(line: Seq<char>, pattern: Seq<char>, ignore_case: bool) -> bool {
    occurs_in(encode_utf8(folded(pattern, ignore_case)), encode_utf8(folded(line, ignore_case)))
}

/// Calls `str::to_lowercase`. Trusted: the result is the lower-case form of
/// the argument, a function of the argument's characters alone.
#[verifier::external_body]
fn to_lowercase(text: &str) -> (lower: String)
    ensures
        lower@ == lowercase_of(text@),
{
    text.to_lowercase()
}

/// Compares `needle` with the bytes of `haystack` that start at `at`.
pub(crate) fn bytes_match_at(haystack: &[u8], needle: &[u8], at: usize) -> (same: bool)
    requires
        at <= haystack@.len(),
    ensures
        same == occurs_at(needle@, haystack@, at as int),
{
    if needle.len() > haystack.len() - at {
        return false;
    }
    let mut k: usize = 0;
    while k < needle.len()
        invariant
            k <= needle@.len(),
            at + needle@.len() <= haystack@.len() <= usize::MAX,
            forall|j: int| 0 <= j < k ==> haystack@[at + j] == needle@[j],
        decreases needle@.len() - k,
    {
        if haystack[at + k] != needle[k] {
            proof {
                let window = haystack@.subrange(at as int, at + needle@.len());
                assert(window[k as int] == haystack@[at + k]);
            }
            return false;
        }
        k += 1;
    }
    proof {
        assert(haystack@.subrange(at as int, at + needle@.len()) =~= needle@);
    }
    true
}

/// Literal containment: whether `needle` occurs in `haystack`, byte for byte.
/// The empty needle occurs in every text.
pub fn contains(haystack: &str, needle: &str) -> (found: bool)
    ensures
        found == occurs_in(encode_utf8(needle@), encode_utf8(haystack@)),
{
    let hay = haystack.as_bytes();
    let pat = needle.as_bytes();
    if pat.len() > hay.len() {
        return false;
    }
    let last: usize = hay.len() - pat.len();
    let mut at: usize = 0;
    loop
        invariant
            at <= last,
            last + pat@.len() == hay@.len(),
            hay@ == encode_utf8(haystack@),
            pat@ == encode_utf8(needle@),
            forall|k: int| 0 <= k < at ==> !occurs_at(pat@, hay@, k),
        decreases last - at,
    {
        if bytes_match_at(hay, pat, at) {
            return true;
        }
        if at == last {
            return false;
        }
        at += 1;
    }
}

/// Tests one line against the pattern. With `ignore_case`, line and pattern
/// are both brought to lower case before the comparison.
pub fn matches(line: &str, pattern: &str, ignore_case: bool) -> (hit: bool)
    ensures
        hit == is_match(line@, pattern@, ignore_case),
{
    if ignore_case {
        let folded_line = to_lowercase(line);
        let folded_pattern = to_lowercase(pattern);
        contains(folded_line.as_str(), folded_pattern.as_str())
    } else {
        contains(line, pattern)
    }
}

/// Matching with case ignored sees only the lower-case forms: two lines with
/// one lower-case form, and two patterns with one lower-case form, match
/// alike.
pub proof fn lemma_ignore_case_sees_folded_forms(
    line_a: Seq<char>,
    line_b: Seq<char>,
    pattern_a: Seq<char>,
    pattern_b: Seq<char>,
)
    requires
        lowercase_of(line_a) == lowercase_of(line_b),
        lowercase_of(pattern_a) == lowercase_of(pattern_b),
    ensures
        is_match(line_a, pattern_a, true) == is_match(line_b, pattern_b, true),
{
}

} // verus!
