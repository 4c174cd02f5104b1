//! The request for the condensed description of an issue.

use crate::text::{chars_of, string_of};
use vstd::prelude::*;
use vstd::string::StringExecFns;

verus! {

/// The most characters of an issue's text that go into the request.
pub const BODY_LIMIT: usize = 32000;

/// The role that the assistant is given.
pub open spec fn system_text() -> Seq<char> {
    "You're a programming bot tasked to analyze GitHub issues data."@
}

/// The request before the issue's text.
pub open spec fn summary_head() -> Seq<char> {
    "You are tasked with refining and simplifying the information presented in a GitHub issue while keeping the original author's perspective. Think of it as if the original author decided to restate their issue in a more concise manner, focusing on clarity and brevity without losing the essence or the technical specifics of their original message.\n        Issue text: "@
}

/// The request after the issue's text.
pub open spec fn summary_tail() -> Seq<char> {
    "\n        Instructions:\n        - Condense the issue's content by focusing on the primary technical details, proposals, and challenges mentioned, as if restating them directly in the author's voice.\n        - Maintain the original tone and perspective of the author. Your summary should read as though the author themselves is offering a clearer, more straightforward version of their original text.\n        - Include key actionable items, technical specifics, and any proposed solutions or requests made by the author, ensuring these elements are presented succinctly.\n        - Avoid shifting to a third-person narrative. The goal is to simplify the author's message without altering the viewpoint from which it is delivered.\n        - Preserve any direct quotes, technical terms, or specific examples the author used to illustrate their points, but ensure they are integrated into the summary seamlessly and without unnecessary elaboration.\n        - Aim for a summary that allows quick grasping of core points and intentions, aiding efficient understanding and response. \n        - Explicitly remove unnecessary new lines, spaces, and combine multiple new lines into one. Pay special attention to avoid consecutive new lines (i.e., '\\n\\n') in your summary. Escape special characters as needed for command line compatibility.\n        - Do not add extraneous wordings or notations like 'summary', '###', etc., from the original text.\n        Your summary's effectiveness in capturing the essence while staying true to the author's intent is crucial for accurate content analysis and label assignment training."@
}

/// The first `limit` characters of `text`, or all of it if it has no more.
pub open spec fn cut(text: Seq<char>, limit: nat) -> Seq<char> {
    if text.len() <= limit {
        text
    } else {
        text.take(limit as int)
    }
}

/// The request for the condensed description of an issue with the text `body`.
pub open spec fn summary_request(body: Seq<char>) -> Seq<char> {
    summary_head() + cut(body, BODY_LIMIT as nat) + summary_tail()
}

/// Returns the role that the assistant is given when it condenses an issue.
pub fn system_prompt() -> (text: String)
    ensures
        text@ == system_text(),
{
    String::from_str("You're a programming bot tasked to analyze GitHub issues data.")
}

/// Returns the first `limit` characters of `text`, or all of it if it has no more.
pub fn cut_text(text: &str, limit: usize) -> (head: String)
    ensures
        head@ == cut(text@, limit as nat),
{
    let all = chars_of(text);
    let end = if all.len() <= limit {
        all.len()
    } else {
        limit
    };
    proof {
        assert(all@.subrange(0, all@.len() as int) =~= all@);
    }
    string_of(&all, 0, end)
}

/// Returns the request for the condensed description of an issue with the text
/// `issue_body`, of which the first 32000 characters are quoted.
pub fn summary_prompt(issue_body: &str) -> (text: String)
    ensures
        text@ == summary_request(issue_body@),
{
    let mut text = String::from_str(
        "You are tasked with refining and simplifying the information presented in a GitHub issue while keeping the original author's perspective. Think of it as if the original author decided to restate their issue in a more concise manner, focusing on clarity and brevity without losing the essence or the technical specifics of their original message.\n        Issue text: ",
    );
    let quoted = cut_text(issue_body, BODY_LIMIT);
    text.append(quoted.as_str());
    text.append(
        "\n        Instructions:\n        - Condense the issue's content by focusing on the primary technical details, proposals, and challenges mentioned, as if restating them directly in the author's voice.\n        - Maintain the original tone and perspective of the author. Your summary should read as though the author themselves is offering a clearer, more straightforward version of their original text.\n        - Include key actionable items, technical specifics, and any proposed solutions or requests made by the author, ensuring these elements are presented succinctly.\n        - Avoid shifting to a third-person narrative. The goal is to simplify the author's message without altering the viewpoint from which it is delivered.\n        - Preserve any direct quotes, technical terms, or specific examples the author used to illustrate their points, but ensure they are integrated into the summary seamlessly and without unnecessary elaboration.\n        - Aim for a summary that allows quick grasping of core points and intentions, aiding efficient understanding and response. \n        - Explicitly remove unnecessary new lines, spaces, and combine multiple new lines into one. Pay special attention to avoid consecutive new lines (i.e., '\\n\\n') in your summary. Escape special characters as needed for command line compatibility.\n        - Do not add extraneous wordings or notations like 'summary', '###', etc., from the original text.\n        Your summary's effectiveness in capturing the essence while staying true to the author's intent is crucial for accurate content analysis and label assignment training.",
    );
    text
}

} // verus!
