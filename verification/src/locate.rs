//! Finding the answer in a raw completion.
//!
//! A completion may repeat the prompt it was given before it answers. The prompt ends with a
//! fixed marker, so the answer is what follows the marker's first occurrence.

use crate::text::{chars_of, contains, find, first_index, lemma_first_index, occurs_at, string_of, trim_range, trimmed};
use vstd::prelude::*;

verus! {

/// The completion does not hold the marker, so no answer can be told apart in it.
#[derive(Debug, Clone, Copy, PartialEq, Eq)]
pub struct SectionNotFound;

/// The marker that precedes the answer.
pub open spec fn marker() -> Seq<char> {
    "### Response:"@
}

/// The answer in `raw`: what follows the first marker, trimmed. `None` without a marker.
pub open spec fn located(raw: Seq<char>) -> Option<Seq<char>> {
    if contains(raw, marker()) {
        Some(trimmed(raw.skip(first_index(raw, marker()) + marker().len())))
    } else {
        None
    }
}

/// Returns the trimmed text after the first `### Response:` in `raw`, or `SectionNotFound`
/// if `raw` does not hold the marker.
pub fn locate_answer(raw: &str) -> (answer: Result<String, SectionNotFound>)
    ensures
        match answer {
            Ok(text) => located(raw@) == Some(text@),
            Err(_) => located(raw@) is None,
        },
        answer is Ok <==> contains(raw@, marker()),
{
    let hay = chars_of(raw);
    let needle = chars_of("### Response:");
    match find(&hay, &needle) {
        None => Err(SectionNotFound),
        Some(at) => {
            proof {
                lemma_first_index(hay@, needle@, at as int);
                assert(occurs_at(hay@, needle@, at as int));
                assert(hay@.skip(at + needle@.len()) =~= hay@.subrange(
                    at + needle@.len(),
                    hay@.len() as int,
                ));
            }
            let start = at + needle.len();
            let (a, b) = trim_range(&hay, start, hay.len());
            Ok(string_of(&hay, a, b))
        },
    }
}

/// A text without the marker has no answer, whether it is a raw completion or an answer
/// that was located before: locating again in such an answer fails as it does in such a
/// completion.
pub proof fn lemma_locate_without_marker(raw: Seq<char>)
    ensures
        !contains(raw, marker()) ==> located(raw) is None,
        located(raw) is Some && !contains(located(raw)->0, marker()) ==> located(
            located(raw)->0,
        ) is None,
{
}

} // verus!
