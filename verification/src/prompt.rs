//! The prompt that asks for the labels of an issue.
//!
//! The question about the issue stands in a fixed instruction template, which ends with the
//! marker that `locate` looks for: a completion that repeats the prompt before it answers
//! therefore always has an answer that can be located.

use crate::locate::{located, marker};
use crate::text::occurs_at;
use vstd::prelude::*;
use vstd::string::StringExecFns;

verus! {

/// An issue, as far as labelling reads it.
#[derive(Default, Debug, Clone)]
pub struct Payload {
    pub number: u64,
    pub title: String,
    pub url: String,
    pub labels: Option<Vec<String>>,
    pub creator: String,
    pub essence: Option<String>,
}

/// How `essence` is written out in the question.
pub uninterp spec fn debug_text(essence: Option<Seq<char>>) -> Seq<char>;

/// The `Debug` form of an `Option<String>` of std, as `format!` writes it with `{:?}`. It
/// depends on the value alone.
#[verifier::external_body]
fn debug_form(essence: &Option<String>) -> (form: String)
    ensures
        form@ == debug_text(essence.deep_view()),
{
    format!("{:?}", essence)
}

/// The template before the question.
pub open spec fn preamble() -> Seq<char> {
    "Below is an instruction that describes a task, paired with an input that provides further context. Write a response that appropriately completes the request.\n\n        ### Instruction:\n        You're a programming bot tasked to analyze GitHub issues data and assign labels to them\"\n        ### Input:\n        "@
}

/// The template between the question and the marker.
pub open spec fn interlude() -> Seq<char> {
    "\n        \n        "@
}

/// The question about an issue whose condensed description is written out as `form`.
pub open spec fn question_text(title: Seq<char>, creator: Seq<char>, form: Seq<char>) -> Seq<char> {
    "Can you assign labels to the GitHub issue titled `"@ + title + "` created by `"@ + creator
        + "`, stating `"@ + form + "`?"@
}

/// The question about an issue.
pub open spec fn question(title: Seq<char>, creator: Seq<char>, essence: Option<Seq<char>>) -> Seq<
    char,
> {
    question_text(title, creator, debug_text(essence))
}

/// The prompt for an issue: the question in the instruction template.
pub open spec fn prompt(title: Seq<char>, creator: Seq<char>, essence: Option<Seq<char>>) -> Seq<
    char,
> {
    preamble() + question(title, creator, essence) + interlude() + marker()
}

/// Returns the question that asks for the labels of the issue with the given title and
/// creator, whose condensed description is written out as `form`.
pub fn question_with(title: &str, creator: &str, form: &str) -> (text: String)
    ensures
        text@ == question_text(title@, creator@, form@),
{
    let mut text = String::from_str("Can you assign labels to the GitHub issue titled `");
    text.append(title);
    text.append("` created by `");
    text.append(creator);
    text.append("`, stating `");
    text.append(form);
    text.append("`?");
    text
}

/// Returns the question that asks for the labels of the issue with the given title, creator
/// and condensed description.
pub fn build_question(title: &str, creator: &str, essence: &Option<String>) -> (text: String)
    ensures
        text@ == question(title@, creator@, essence.deep_view()),
{
    let form = debug_form(essence);
    question_with(title, creator, form.as_str())
}

/// Returns the prompt that asks for the labels of the issue with the given title, creator
/// and condensed description.
pub fn build_prompt(title: &str, creator: &str, essence: &Option<String>) -> (text: String)
    ensures
        text@ == prompt(title@, creator@, essence.deep_view()),
{
    let mut text = String::from_str(
        "Below is an instruction that describes a task, paired with an input that provides further context. Write a response that appropriately completes the request.\n\n        ### Instruction:\n        You're a programming bot tasked to analyze GitHub issues data and assign labels to them\"\n        ### Input:\n        ",
    );
    let asked = build_question(title, creator, essence);
    text.append(asked.as_str());
    text.append("\n        \n        ");
    text.append("### Response:");
    text
}

impl Payload {
    /// Returns the prompt that asks for the labels of this issue.
    pub fn prompt(&self) -> (text: String)
        ensures
            text@ == prompt(self.title@, self.creator@, self.essence.deep_view()),
    {
        build_prompt(self.title.as_str(), self.creator.as_str(), &self.essence)
    }
}

/// A completion that repeats the prompt and then goes on has an answer.
pub proof fn lemma_echo_has_answer(
    title: Seq<char>,
    creator: Seq<char>,
    essence: Option<Seq<char>>,
    rest: Seq<char>,
)
    ensures
        located(prompt(title, creator, essence) + rest) is Some,
{
    let before = preamble() + question(title, creator, essence) + interlude();
    let whole = prompt(title, creator, essence) + rest;
    assert(whole.subrange(before.len() as int, (before.len() + marker().len()) as int) =~= marker());
    assert(occurs_at(whole, marker(), before.len() as int));
}

} // verus!
